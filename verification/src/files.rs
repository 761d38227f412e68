use vstd::prelude::*;
use crate::text::{opt_text, chars_of, ascii_lower_seq, ascii_lower_vec, vec_eq_str, occurs_at, string_from_chars, string_from_range};
use crate::sorting::{lemma_filter_none, lemma_filter_count};

verus! {

/// `ext` can be the extension of `path`: text without a `.` that follows a `.` in the path.
pub open spec fn is_extension_in(path: Seq<char>, ext: Seq<char>) -> bool {
    &&& !ext.contains('.')
    &&& exists|i: int| occurs_at(path, seq!['.'] + ext, i)
}

/// `piece` occurs in `path` as a contiguous run of characters.
pub open spec fn is_piece_of(path: Seq<char>, piece: Seq<char>) -> bool {
    exists|i: int| occurs_at(path, piece, i)
}

/// A file name that is one plain path component on every platform: not empty, without `/`,
/// `\` or `:`, and neither `.` nor `..`.
pub open spec fn is_plain_file_name(name: Seq<char>) -> bool {
    &&& name.len() > 0
    &&& !name.contains('/')
    &&& !name.contains('\\')
    &&& !name.contains(':')
    &&& name != seq!['.']
    &&& name != seq!['.', '.']
}

/// The index of the last `c` in `s`, if any.
pub open spec fn last_index_of(s: Seq<char>, c: char) -> Option<int>
    decreases s.len(),
{
    if s.len() == 0 {
        None
    } else if s.last() == c {
        Some(s.len() - 1)
    } else {
        last_index_of(s.drop_last(), c)
    }
}

/// The text after the last `/` of a path; the whole path when it has none.
pub open spec fn last_part(path: Seq<char>) -> Seq<char> {
    match last_index_of(path, '/') {
        Some(i) => path.skip(i + 1),
        None => path,
    }
}

/// A path whose file name is its last `/`-separated part on every platform: it holds no `\`
/// (a separator on some platforms only) and no `:` (a drive prefix on some), it does not begin
/// with `//` (a network prefix on some), and its last part is a plain file name. `/` separates
/// components everywhere, so the last part is the path's final component.
pub open spec fn is_separated_path(path: Seq<char>) -> bool {
    &&& !path.contains('\\')
    &&& !path.contains(':')
    &&& !(path.len() >= 2 && path[0] == '/' && path[1] == '/')
    &&& is_plain_file_name(last_part(path))
}

/// The path with its trailing `/` separators and trailing `.` components taken off: path
/// parsing ignores them on every platform (`a/b/`, `a/b/.` and `a/b` have the same components).
/// A path holding `\` is left as it is, as some platforms read `/` literally in such paths.
pub open spec fn path_end_trimmed(path: Seq<char>) -> Seq<char>
    decreases path.len(),
{
    if path.contains('\\') {
        path
    } else if path.len() >= 1 && path.last() == '/' {
        path_end_trimmed(path.drop_last())
    } else if path.len() >= 2 && path.last() == '.' && path[path.len() - 2] == '/' {
        path_end_trimmed(path.take(path.len() - 2))
    } else {
        path
    }
}

/// The trimmed path is the path's beginning.
pub proof fn lemma_trimmed_is_prefix(path: Seq<char>)
    ensures
        path_end_trimmed(path).len() <= path.len(),
        path_end_trimmed(path) == path.take(path_end_trimmed(path).len() as int),
    decreases path.len(),
{
    if path.contains('\\') {
        assert(path.take(path.len() as int) =~= path);
    } else if path.len() >= 1 && path.last() == '/' {
        let q = path.drop_last();
        lemma_trimmed_is_prefix(q);
        assert(q.take(path_end_trimmed(q).len() as int) =~= path.take(path_end_trimmed(q).len() as int));
    } else if path.len() >= 2 && path.last() == '.' && path[path.len() - 2] == '/' {
        let q = path.take(path.len() - 2);
        lemma_trimmed_is_prefix(q);
        assert(q.take(path_end_trimmed(q).len() as int) =~= path.take(path_end_trimmed(q).len() as int));
    } else {
        assert(path.take(path.len() as int) =~= path);
    }
}

/// What occurs in the beginning of a path occurs in the path.
proof fn lemma_prefix_occurrence(path: Seq<char>, k: int, needle: Seq<char>, i: int)
    requires
        0 <= k <= path.len(),
        occurs_at(path.take(k), needle, i),
    ensures
        occurs_at(path, needle, i),
{
    assert(path.take(k).subrange(i, i + needle.len()) =~= path.subrange(i, i + needle.len()));
}

/// A path without its trailing `/` separators and trailing `.` components (see
/// `path_end_trimmed`).
pub fn trim_path_end(path: &str) -> (r: String)
    ensures
        r@ == path_end_trimmed(path@),
{
    let v = chars_of(path);
    let n = v.len();
    let mut has_backslash = false;
    for i in 0..n
        invariant
            n == v.len(),
            has_backslash <==> v@.take(i as int).contains('\\'),
    {
        proof {
            assert(v@.take(i + 1) =~= v@.take(i as int).push(v@[i as int]));
            vstd::seq_lib::lemma_seq_contains_after_push(v@.take(i as int), v@[i as int], '\\');
        }
        if v[i] == '\\' {
            has_backslash = true;
        }
    }
    proof {
        assert(v@.take(n as int) =~= v@);
    }
    if has_backslash {
        return string_from_chars(&v);
    }
    let mut end: usize = n;
    proof {
        assert(v@.take(n as int) =~= v@);
    }
    while end >= 1 && (v[end - 1] == '/' || (end >= 2 && v[end - 1] == '.' && v[end - 2] == '/'))
        invariant
            end <= v.len(),
            !v@.contains('\\'),
            path_end_trimmed(v@) == path_end_trimmed(v@.take(end as int)),
        decreases end,
    {
        let ghost t = v@.take(end as int);
        proof {
            if t.contains('\\') {
                let j = choose|j: int| 0 <= j < t.len() && t[j] == '\\';
                assert(v@[j] == '\\');
            }
        }
        if v[end - 1] == '/' {
            proof {
                assert(t.drop_last() =~= v@.take(end - 1));
            }
            end = end - 1;
        } else {
            proof {
                assert(t.take(t.len() - 2) =~= v@.take(end - 2));
            }
            end = end - 2;
        }
    }
    proof {
        let t = v@.take(end as int);
        if t.contains('\\') {
            let j = choose|j: int| 0 <= j < t.len() && t[j] == '\\';
            assert(v@[j] == '\\');
        }
    }
    string_from_range(&v, 0, end)
}

/// The extension of a file name: the text after its final `.`; none when it has no `.`, or
/// when its only `.` is the first character.
pub open spec fn name_extension(name: Seq<char>) -> Option<Seq<char>> {
    match last_index_of(name, '.') {
        Some(i) => if i > 0 { Some(name.skip(i + 1)) } else { None },
        None => None,
    }
}

/// The stem of a file name: the text before its final `.`; the whole name when it has no
/// `.`, or when its only `.` is the first character.
pub open spec fn name_stem(name: Seq<char>) -> Seq<char> {
    match last_index_of(name, '.') {
        Some(i) => if i > 0 { name.take(i) } else { name },
        None => name,
    }
}

/// The extension of a path, by `std::path::Path::extension`, as text. Its documentation
/// defines the extension as the part of the file name after its final `.`, with none when
/// the name has no `.` or begins with its only `.`. For a separated path (its file name is the
/// text after its last `/` on every platform) the contract states that rule exactly, on that
/// last part. For other paths, which part of the text is the file name depends on the
/// platform's path syntax, so the contract says only that the extension is text without a `.`
/// that follows a `.` in the path, and leaves unsaid whether there is one.
#[verifier::external_body]
fn path_extension(path: &str) -> (r: Option<String>)
    ensures
        r matches Some(e) ==> is_extension_in(path@, e@),
        is_separated_path(path@) ==> opt_text(r) == name_extension(last_part(path@)),
{
    match std::path::Path::new(path).extension() {
        Some(ext) => Some(ext.to_string_lossy().into_owned()),
        None => None,
    }
}

/// The file stem of a path, by `std::path::Path::file_stem`, as text. Its documentation
/// defines the stem as the file name before its final `.`, or the whole name when it has no
/// `.` or begins with its only `.`. For a separated path the contract states that rule exactly,
/// on the text after the last `/`. For other paths it says only that the stem is a contiguous
/// part of the path text, and leaves unsaid which, as that depends on the platform's path
/// syntax.
#[verifier::external_body]
pub(crate) fn path_file_stem(path: &str) -> (r: Option<String>)
    ensures
        r matches Some(s) ==> is_piece_of(path@, s@),
        is_separated_path(path@) ==> opt_text(r) == Some(name_stem(last_part(path@))),
{
    match std::path::Path::new(path).file_stem() {
        Some(stem) => Some(stem.to_string_lossy().into_owned()),
        None => None,
    }
}

/// An extension that marks a Standard MIDI File, in any letter case.
pub open spec fn spec_is_midi_extension(ext: Seq<char>) -> bool {
    ascii_lower_seq(ext) == "mid"@ || ascii_lower_seq(ext) == "midi"@
}

/// Whether an extension is `mid` or `midi`, ignoring ASCII case.
pub fn is_midi_extension(ext: &str) -> (r: bool)
    ensures
        r == spec_is_midi_extension(ext@),
{
    let lower = ascii_lower_vec(&chars_of(ext));
    vec_eq_str(&lower, "mid") || vec_eq_str(&lower, "midi")
}

proof fn lemma_extension_needs_dot(path: Seq<char>, ext: Seq<char>)
    requires
        is_extension_in(path, ext),
    ensures
        path.contains('.'),
{
    let i = choose|i: int| occurs_at(path, seq!['.'] + ext, i);
    assert(path.subrange(i, i + 1 + ext.len())[0] == '.');
    assert(path[i] == '.');
}

/// Whether a path names a MIDI file, judged by its extension. Trailing `/` separators and
/// trailing `.` components do not count, as path parsing ignores them.
pub fn is_midi_path(path: &str) -> (r: bool)
    ensures
        r ==> exists|e: Seq<char>| is_extension_in(path@, e) && spec_is_midi_extension(e),
        !path@.contains('.') ==> !r,
        is_separated_path(path_end_trimmed(path@)) ==> (r <==> (
            name_extension(last_part(path_end_trimmed(path@))) matches Some(e) && spec_is_midi_extension(e))),
{
    let trimmed = trim_path_end(path);
    proof {
        lemma_trimmed_is_prefix(path@);
    }
    match path_extension(trimmed.as_str()) {
        Some(ext) => {
            let r = is_midi_extension(ext.as_str());
            proof {
                let k = trimmed@.len() as int;
                let i = choose|i: int| occurs_at(trimmed@, seq!['.'] + ext@, i);
                lemma_prefix_occurrence(path@, k, seq!['.'] + ext@, i);
                assert(is_extension_in(path@, ext@));
                lemma_extension_needs_dot(path@, ext@);
            }
            r
        },
        None => false,
    }
}

// ---------------------------------------------------------------------------------------------
// SoundFonts offered to the user

/// A SoundFont file offered for MIDI tracks: its name (the file stem) and its path.
#[derive(Debug, Clone)]
pub struct UiSoundFontEntry {
    pub name: String,
    pub path: String,
}

impl UiSoundFontEntry {
    /// An equal copy of the entry.
    pub fn duplicate(&self) -> (r: Self)
        ensures
            r == *self,
    {
        UiSoundFontEntry { name: self.name.clone(), path: self.path.clone() }
    }
}

/// The order of `String` comparison: lexicographic by character code, which is also the
/// order of the UTF-8 bytes.
pub open spec fn name_le(a: Seq<char>, b: Seq<char>) -> bool
    decreases a.len(),
{
    if a.len() == 0 {
        true
    } else if b.len() == 0 {
        false
    } else if a[0] != b[0] {
        (a[0] as int) < (b[0] as int)
    } else {
        name_le(a.drop_first(), b.drop_first())
    }
}

/// Every name is at most itself.
pub proof fn lemma_name_le_reflexive(a: Seq<char>)
    ensures
        name_le(a, a),
    decreases a.len(),
{
    if a.len() > 0 {
        lemma_name_le_reflexive(a.drop_first());
    }
}

/// Any two names are ordered one way or the other.
pub proof fn lemma_name_le_total(a: Seq<char>, b: Seq<char>)
    ensures
        name_le(a, b) || name_le(b, a),
    decreases a.len(),
{
    if a.len() > 0 && b.len() > 0 {
        if a[0] == b[0] {
            lemma_name_le_total(a.drop_first(), b.drop_first());
        } else {
            assert((a[0] as int) != (b[0] as int));
        }
    }
}

/// Names ordered both ways are equal.
pub proof fn lemma_name_le_antisymmetric(a: Seq<char>, b: Seq<char>)
    requires
        name_le(a, b),
        name_le(b, a),
    ensures
        a == b,
    decreases a.len(),
{
    if a.len() > 0 && b.len() > 0 {
        lemma_name_le_antisymmetric(a.drop_first(), b.drop_first());
        assert(a =~= seq![a[0]] + a.drop_first());
        assert(b =~= seq![b[0]] + b.drop_first());
    } else {
        assert(a =~= b);
    }
}

/// The order is transitive.
pub proof fn lemma_name_le_transitive(a: Seq<char>, b: Seq<char>, c: Seq<char>)
    requires
        name_le(a, b),
        name_le(b, c),
    ensures
        name_le(a, c),
    decreases a.len(),
{
    if a.len() > 0 && b.len() > 0 && c.len() > 0 && a[0] == b[0] && b[0] == c[0] {
        lemma_name_le_transitive(a.drop_first(), b.drop_first(), c.drop_first());
    }
}

proof fn lemma_name_le_skip(a: Seq<char>, b: Seq<char>, i: int)
    requires
        0 <= i < a.len(),
        i < b.len(),
    ensures
        a[i] != b[i] ==> name_le(a.skip(i), b.skip(i)) == ((a[i] as int) < (b[i] as int)),
        a[i] == b[i] ==> name_le(a.skip(i), b.skip(i)) == name_le(a.skip(i + 1), b.skip(i + 1)),
{
    assert(a.skip(i)[0] == a[i]);
    assert(b.skip(i)[0] == b[i]);
    assert(a.skip(i).drop_first() =~= a.skip(i + 1));
    assert(b.skip(i).drop_first() =~= b.skip(i + 1));
}

/// Compares two names as `String` comparison does.
pub fn name_le_exec(a: &Vec<char>, b: &Vec<char>) -> (r: bool)
    ensures
        r == name_le(a@, b@),
{
    let mut i: usize = 0;
    proof {
        assert(a@.skip(0) =~= a@);
        assert(b@.skip(0) =~= b@);
    }
    while i < a.len() && i < b.len()
        invariant
            i <= a.len(),
            i <= b.len(),
            name_le(a@, b@) == name_le(a@.skip(i as int), b@.skip(i as int)),
        decreases a.len() - i,
    {
        proof {
            lemma_name_le_skip(a@, b@, i as int);
        }
        if a[i] != b[i] {
            return a[i] < b[i];
        }
        i = i + 1;
    }
    assert(i == a.len() ==> a@.skip(i as int).len() == 0);
    assert(i < a.len() ==> a@.skip(i as int).len() > 0 && b@.skip(i as int).len() == 0);
    i == a.len()
}

/// Entries appear in non-decreasing order of name.
pub open spec fn names_sorted(s: Seq<UiSoundFontEntry>) -> bool {
    forall|i: int, j: int| 0 <= i <= j < s.len() ==> name_le(#[trigger] s[i].name@, #[trigger] s[j].name@)
}

/// The predicate "is named `n`".
pub open spec fn named(n: Seq<char>) -> spec_fn(UiSoundFontEntry) -> bool {
    |e: UiSoundFontEntry| e.name@ == n
}

/// The entries of `s` named `n`, in their order in `s`.
pub open spec fn with_name(s: Seq<UiSoundFontEntry>, n: Seq<char>) -> Seq<UiSoundFontEntry> {
    s.filter(named(n))
}

/// `r` is `s` stably sorted by name: in name order, and for every name the entries carrying
/// it appear in `r` exactly as, and in the same order as, in `s`.
pub open spec fn is_name_sort_of(r: Seq<UiSoundFontEntry>, s: Seq<UiSoundFontEntry>) -> bool {
    &&& names_sorted(r)
    &&& forall|n: Seq<char>| #[trigger] with_name(r, n) == with_name(s, n)
}

proof fn lemma_insert_keeps_names(r: Seq<UiSoundFontEntry>, p: int, x: UiSoundFontEntry, n: Seq<char>)
    requires
        0 <= p <= r.len(),
        forall|j: int| p <= j < r.len() ==> r[j].name@ != x.name@,
    ensures
        with_name(r.insert(p, x), n) == if n == x.name@ {
            with_name(r, n).push(x)
        } else {
            with_name(r, n)
        },
{
    let pred = named(n);
    let a = r.take(p);
    let b = r.skip(p);
    assert(r.insert(p, x) =~= a + seq![x] + b);
    assert(r =~= a + b);
    Seq::filter_distributes_over_add(a + seq![x], b, pred);
    Seq::filter_distributes_over_add(a, seq![x], pred);
    Seq::filter_distributes_over_add(a, b, pred);
    reveal_with_fuel(Seq::filter, 2);
    assert(seq![x].drop_last() =~= Seq::<UiSoundFontEntry>::empty());
    if n == x.name@ {
        assert forall|i: int| 0 <= i < b.len() implies !pred(#[trigger] b[i]) by {
            assert(b[i] == r[p + i]);
        }
        lemma_filter_none(b, pred);
        assert(seq![x].filter(pred) =~= seq![x]);
        assert(with_name(r, n) =~= a.filter(pred));
        assert(with_name(r.insert(p, x), n) =~= a.filter(pred) + seq![x]);
    } else {
        assert(seq![x].filter(pred) =~= Seq::<UiSoundFontEntry>::empty());
        assert(with_name(r.insert(p, x), n) =~= a.filter(pred) + b.filter(pred));
    }
}

/// Sorts entries by name, keeping entries of equal name in the order they had.
pub fn sort_by_name(entries: &Vec<UiSoundFontEntry>) -> (r: Vec<UiSoundFontEntry>)
    ensures
        is_name_sort_of(r@, entries@),
{
    let mut r: Vec<UiSoundFontEntry> = Vec::new();
    let n = entries.len();
    for i in 0..n
        invariant
            n == entries.len(),
            names_sorted(r@),
            forall|m: Seq<char>| #[trigger] with_name(r@, m) == with_name(entries@.take(i as int), m),
    {
        let x = entries[i].duplicate();
        let xn = chars_of(x.name.as_str());
        let mut p: usize = 0;
        while p < r.len() && name_le_exec(&chars_of(r[p].name.as_str()), &xn)
            invariant
                p <= r.len(),
                xn@ == x.name@,
                names_sorted(r@),
                forall|j: int| 0 <= j < p ==> name_le(#[trigger] r@[j].name@, x.name@),
            decreases r.len() - p,
        {
            p = p + 1;
        }
        let ghost old_r = r@;
        proof {
            assert forall|j: int| p <= j < old_r.len() implies !name_le(#[trigger] old_r[j].name@, x.name@) by {
                assert(!name_le(old_r[p as int].name@, x.name@));
                assert(name_le(old_r[p as int].name@, old_r[j].name@));
                if name_le(old_r[j].name@, x.name@) {
                    lemma_name_le_transitive(old_r[p as int].name@, old_r[j].name@, x.name@);
                }
            }
            assert forall|j: int| p <= j < old_r.len() implies #[trigger] old_r[j].name@ != x.name@ by {
                lemma_name_le_reflexive(x.name@);
            }
        }
        r.insert(p, x);
        proof {
            assert(entries@.take(i + 1) =~= entries@.take(i as int).push(x));
            assert forall|m: Seq<char>| #[trigger] with_name(r@, m) == with_name(entries@.take(i + 1), m) by {
                lemma_insert_keeps_names(old_r, p as int, x, m);
                entries@.take(i as int).lemma_filter_push(x, named(m));
            }
            assert forall|a: int, b: int| 0 <= a <= b < r@.len() implies name_le(#[trigger] r@[a].name@, #[trigger] r@[b].name@) by {
                if a < p && b < p {
                    assert(r@[a] == old_r[a] && r@[b] == old_r[b]);
                } else if a < p && b == p {
                    assert(r@[a] == old_r[a]);
                } else if a < p {
                    assert(r@[a] == old_r[a] && r@[b] == old_r[b - 1]);
                    assert(name_le(old_r[a].name@, x.name@));
                    lemma_name_le_total(old_r[b - 1].name@, x.name@);
                    lemma_name_le_transitive(old_r[a].name@, x.name@, old_r[b - 1].name@);
                } else if a == p && b > p {
                    assert(r@[b] == old_r[b - 1]);
                    lemma_name_le_total(old_r[b - 1].name@, x.name@);
                } else if a == p && b == p {
                    lemma_name_le_reflexive(x.name@);
                } else {
                    assert(r@[a] == old_r[a - 1] && r@[b] == old_r[b - 1]);
                }
            }
        }
    }
    proof {
        assert(entries@.take(n as int) =~= entries@);
    }
    r
}

/// The name of the SoundFont entry for a file with this extension and stem: the stem, when
/// the extension is `sf2` in some letter case and the file has a stem.
pub open spec fn spec_soundfont_name(extension: Option<Seq<char>>, stem: Option<Seq<char>>) -> Option<Seq<char>> {
    match extension {
        Some(x) => if ascii_lower_seq(x) == "sf2"@ { stem } else { None },
        None => None,
    }
}

/// The name of the SoundFont entry of a path whose trimmed form (see `path_end_trimmed`) is
/// separated, read from the text after its last `/`.
pub open spec fn path_soundfont_name(path: Seq<char>) -> Option<Seq<char>> {
    let t = path_end_trimmed(path);
    spec_soundfont_name(name_extension(last_part(t)), Some(name_stem(last_part(t))))
}

/// The SoundFont entry for the file at `path`, given the path's extension and file stem.
pub fn soundfont_entry_from_parts(path: &str, extension: Option<String>, stem: Option<String>) -> (r: Option<UiSoundFontEntry>)
    ensures
        match spec_soundfont_name(opt_text(extension), opt_text(stem)) {
            Some(name) => r matches Some(e) && e.name@ == name && e.path@ == path@,
            None => r is None,
        },
{
    match extension {
        None => None,
        Some(ext) => {
            let lower = ascii_lower_vec(&chars_of(ext.as_str()));
            if !vec_eq_str(&lower, "sf2") {
                return None;
            }
            match stem {
                None => None,
                Some(stem) => Some(UiSoundFontEntry { name: stem, path: String::from_str(path) }),
            }
        },
    }
}

/// The SoundFont entry for a path, if the path names an `.sf2` file (any letter case): the
/// entry's name is the file stem and its path the path itself. Trailing `/` separators and
/// trailing `.` components do not count, as path parsing ignores them.
pub fn soundfont_entry(path: &str) -> (r: Option<UiSoundFontEntry>)
    ensures
        r matches Some(e) ==> {
            &&& e.path@ == path@
            &&& is_piece_of(path@, e.name@)
            &&& exists|x: Seq<char>| is_extension_in(path@, x) && ascii_lower_seq(x) == "sf2"@
        },
        !path@.contains('.') ==> r is None,
        is_separated_path(path_end_trimmed(path@)) ==> match path_soundfont_name(path@) {
            Some(name) => r matches Some(e) && e.name@ == name && e.path@ == path@,
            None => r is None,
        },
{
    let trimmed = trim_path_end(path);
    let extension = path_extension(trimmed.as_str());
    let stem = path_file_stem(trimmed.as_str());
    proof {
        lemma_trimmed_is_prefix(path@);
        let k = trimmed@.len() as int;
        if extension is Some {
            let x = extension->0@;
            let i = choose|i: int| occurs_at(trimmed@, seq!['.'] + x, i);
            lemma_prefix_occurrence(path@, k, seq!['.'] + x, i);
            assert(is_extension_in(path@, x));
            lemma_extension_needs_dot(path@, x);
        }
        if stem is Some {
            let st = stem->0@;
            let i = choose|i: int| occurs_at(trimmed@, st, i);
            lemma_prefix_occurrence(path@, k, st, i);
            assert(is_piece_of(path@, st));
        }
    }
    soundfont_entry_from_parts(path, extension, stem)
}

/// `e` is the SoundFont entry of the file at `path`: its path is `path`, its name a part of
/// `path`, and `path` has an extension that is `sf2` in some letter case.
pub open spec fn entry_of_path(e: UiSoundFontEntry, path: Seq<char>) -> bool {
    &&& e.path@ == path
    &&& is_piece_of(path, e.name@)
    &&& exists|x: Seq<char>| is_extension_in(path, x) && ascii_lower_seq(x) == "sf2"@
}

/// Every entry of `entries` is the SoundFont entry of one of `paths`.
pub open spec fn entries_from_paths(entries: Seq<UiSoundFontEntry>, paths: Seq<String>) -> bool {
    forall|k: int| 0 <= k < entries.len() ==> #[trigger] entry_of_some_path(entries[k], paths)
}

/// `e` is the SoundFont entry of one of `paths`.
pub open spec fn entry_of_some_path(e: UiSoundFontEntry, paths: Seq<String>) -> bool {
    exists|j: int| 0 <= j < paths.len() && #[trigger] entry_of_path(e, paths[j]@)
}

/// `e` can be the entry a path gives: the SoundFont entry of the file at `path`, and, when the
/// trimmed path is separated, exactly the entry its last part's extension and stem call for.
pub open spec fn entry_allowed(e: UiSoundFontEntry, path: Seq<char>) -> bool {
    &&& entry_of_path(e, path)
    &&& is_separated_path(path_end_trimmed(path)) ==> path_soundfont_name(path) == Some(e.name@)
}

/// A path can give no entry: its trimmed form is not a separated path whose last part has the
/// extension `sf2`.
pub open spec fn no_entry_allowed(path: Seq<char>) -> bool {
    is_separated_path(path_end_trimmed(path)) ==> path_soundfont_name(path) is None
}

/// `found` holds, in the order of `paths`, one entry for each path that gives one and none
/// for each path that gives none.
pub open spec fn entries_of_paths(found: Seq<UiSoundFontEntry>, paths: Seq<String>) -> bool
    decreases paths.len(),
{
    if paths.len() == 0 {
        found.len() == 0
    } else {
        let p = paths.last()@;
        ||| (found.len() > 0 && entry_allowed(found.last(), p) && entries_of_paths(found.drop_last(), paths.drop_last()))
        ||| (no_entry_allowed(p) && entries_of_paths(found, paths.drop_last()))
    }
}

proof fn lemma_push_entry(found: Seq<UiSoundFontEntry>, e: UiSoundFontEntry, paths: Seq<String>, i: int)
    requires
        entries_from_paths(found, paths),
        0 <= i < paths.len(),
        entry_of_path(e, paths[i]@),
    ensures
        entries_from_paths(found.push(e), paths),
{
    let pushed = found.push(e);
    assert(entry_of_some_path(e, paths));
    assert forall|k: int| 0 <= k < pushed.len() implies #[trigger] entry_of_some_path(pushed[k], paths) by {
        if k < found.len() {
            assert(pushed[k] == found[k]);
        }
    }
}

/// The SoundFont entries among the given file paths, sorted by name.
pub fn soundfont_entries(paths: &Vec<String>) -> (r: Vec<UiSoundFontEntry>)
    ensures
        names_sorted(r@),
        r.len() <= paths.len(),
        entries_from_paths(r@, paths@),
        exists|found: Seq<UiSoundFontEntry>| entries_of_paths(found, paths@) && is_name_sort_of(r@, found),
{
    let mut found: Vec<UiSoundFontEntry> = Vec::new();
    let n = paths.len();
    proof {
        assert(paths@.take(0).len() == 0);
    }
    for i in 0..n
        invariant
            n == paths.len(),
            found.len() <= i,
            entries_from_paths(found@, paths@),
            entries_of_paths(found@, paths@.take(i as int)),
    {
        let ghost before = found@;
        proof {
            assert(paths@.take(i + 1).drop_last() =~= paths@.take(i as int));
            assert(paths@.take(i + 1).last() == paths@[i as int]);
        }
        match soundfont_entry(paths[i].as_str()) {
            Some(e) => {
                found.push(e);
                proof {
                    lemma_push_entry(before, e, paths@, i as int);
                    assert(found@.drop_last() =~= before);
                    assert(found@.last() == e);
                }
            },
            None => {},
        }
    }
    proof {
        assert(paths@.take(n as int) =~= paths@);
    }
    let r = sort_by_name(&found);
    proof {
        law_name_sort_is_permutation(r@, found@);
        r@.to_multiset_ensures();
        found@.to_multiset_ensures();
        assert forall|k: int| 0 <= k < r.len() implies #[trigger] entry_of_some_path(r@[k], paths@) by {
            assert(r@.contains(r@[k]));
            assert(found@.to_multiset().count(r@[k]) > 0);
            assert(found@.contains(r@[k]));
            let t = choose|t: int| 0 <= t < found.len() && found@[t] == r@[k];
            assert(entry_of_some_path(found@[t], paths@));
        }
        assert(entries_of_paths(found@, paths@) && is_name_sort_of(r@, found@));
    }
    r
}

/// Sorting by name is a permutation: it neither loses, duplicates nor invents an entry.
pub proof fn law_name_sort_is_permutation(r: Seq<UiSoundFontEntry>, s: Seq<UiSoundFontEntry>)
    requires
        is_name_sort_of(r, s),
    ensures
        r.to_multiset() == s.to_multiset(),
{
    assert forall|x: UiSoundFontEntry| #[trigger] r.to_multiset().count(x) == s.to_multiset().count(x) by {
        assert(with_name(r, x.name@) == with_name(s, x.name@));
        lemma_filter_count(r, named(x.name@), x);
        lemma_filter_count(s, named(x.name@), x);
    }
    assert(r.to_multiset() =~= s.to_multiset());
}

proof fn lemma_with_name_last(s: Seq<UiSoundFontEntry>, n: Seq<char>)
    requires
        s.len() > 0,
    ensures
        s.last().name@ == n ==> with_name(s, n) == with_name(s.drop_last(), n).push(s.last()),
        s.last().name@ != n ==> with_name(s, n) == with_name(s.drop_last(), n),
{
    reveal(Seq::filter);
}

proof fn lemma_name_present(s: Seq<UiSoundFontEntry>, i: int)
    requires
        0 <= i < s.len(),
    ensures
        with_name(s, s[i].name@).len() > 0,
{
    s.lemma_filter_contains(named(s[i].name@), i);
}

proof fn lemma_name_absent(s: Seq<UiSoundFontEntry>, n: Seq<char>)
    requires
        with_name(s, n).len() > 0,
    ensures
        exists|i: int| 0 <= i < s.len() && (#[trigger] s[i]).name@ == n,
    decreases s.len(),
{
    reveal(Seq::filter);
    if s.len() > 0 && s.last().name@ != n {
        lemma_name_absent(s.drop_last(), n);
        let i = choose|i: int| 0 <= i < s.drop_last().len() && (#[trigger] s.drop_last()[i]).name@ == n;
        assert(s[i] == s.drop_last()[i]);
    } else if s.len() == 0 {
        assert(with_name(s, n) =~= s);
    }
}

proof fn lemma_name_sorted_equal(r1: Seq<UiSoundFontEntry>, r2: Seq<UiSoundFontEntry>)
    requires
        names_sorted(r1),
        names_sorted(r2),
        forall|n: Seq<char>| #[trigger] with_name(r1, n) == with_name(r2, n),
    ensures
        r1 == r2,
    decreases r1.len() + r2.len(),
{
    if r1.len() == 0 && r2.len() == 0 {
        assert(r1 =~= r2);
    } else if r1.len() == 0 {
        lemma_name_present(r2, 0);
        assert(with_name(r1, r2[0].name@) =~= r1) by { reveal(Seq::filter); }
    } else if r2.len() == 0 {
        lemma_name_present(r1, 0);
        assert(with_name(r2, r1[0].name@) =~= r2) by { reveal(Seq::filter); }
    } else {
        let a = r1.last().name@;
        let b = r2.last().name@;
        if a != b {
            lemma_name_le_total(a, b);
            if name_le(b, a) {
                lemma_name_present(r1, r1.len() - 1);
                lemma_name_absent(r2, a);
                let i = choose|i: int| 0 <= i < r2.len() && (#[trigger] r2[i]).name@ == a;
                assert(name_le(r2[i].name@, r2[r2.len() - 1].name@));
                lemma_name_le_antisymmetric(a, b);
            } else {
                lemma_name_present(r2, r2.len() - 1);
                lemma_name_absent(r1, b);
                let i = choose|i: int| 0 <= i < r1.len() && (#[trigger] r1[i]).name@ == b;
                assert(name_le(r1[i].name@, r1[r1.len() - 1].name@));
                lemma_name_le_antisymmetric(a, b);
            }
        } else {
            lemma_with_name_last(r1, a);
            lemma_with_name_last(r2, a);
            assert(with_name(r1, a) == with_name(r2, a));
            assert(r1.last() == with_name(r1, a).last());
            assert(r2.last() == with_name(r2, a).last());
            let d1 = r1.drop_last();
            let d2 = r2.drop_last();
            assert forall|n: Seq<char>| #[trigger] with_name(d1, n) == with_name(d2, n) by {
                lemma_with_name_last(r1, n);
                lemma_with_name_last(r2, n);
                if n == a {
                    assert(with_name(d1, n) =~= with_name(r1, n).drop_last());
                    assert(with_name(d2, n) =~= with_name(r2, n).drop_last());
                }
            }
            assert forall|i: int, j: int| 0 <= i <= j < d1.len() implies name_le(#[trigger] d1[i].name@, #[trigger] d1[j].name@) by {
                assert(d1[i] == r1[i] && d1[j] == r1[j]);
            }
            assert forall|i: int, j: int| 0 <= i <= j < d2.len() implies name_le(#[trigger] d2[i].name@, #[trigger] d2[j].name@) by {
                assert(d2[i] == r2[i] && d2[j] == r2[j]);
            }
            lemma_name_sorted_equal(d1, d2);
            assert(r1 =~= d1.push(r1.last()));
            assert(r2 =~= d2.push(r2.last()));
        }
    }
}

/// Sorting by name has one outcome: two stable sorts by name of the same entries are equal.
pub proof fn law_name_sort_unique(r1: Seq<UiSoundFontEntry>, r2: Seq<UiSoundFontEntry>, s: Seq<UiSoundFontEntry>)
    requires
        is_name_sort_of(r1, s),
        is_name_sort_of(r2, s),
    ensures
        r1 == r2,
{
    lemma_name_sorted_equal(r1, r2);
}

} // verus!
