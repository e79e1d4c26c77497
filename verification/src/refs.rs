use vstd::prelude::*;

verus! {

/// Characters that may stand in an identifier of the script language.
pub open spec fn is_ident_char(c: char) -> bool {
    ('a' <= c && c <= 'z') || ('A' <= c && c <= 'Z') || ('0' <= c && c <= '9') || c == '_'
}

/// The first position from `i` on that holds no blank, or the length of `s`.
pub open spec fn skip_blanks(s: Seq<char>, i: int) -> int
    decreases s.len() - i,
{
    if 0 <= i < s.len() && (s[i] == ' ' || s[i] == '\t') {
        skip_blanks(s, i + 1)
    } else {
        i
    }
}

/// The first position from `i` on that holds the quote `q`, a backslash or a
/// line break, or the length of `s`.
pub open spec fn body_end(s: Seq<char>, i: int, q: char) -> int
    decreases s.len() - i,
{
    if 0 <= i < s.len() && s[i] != q && s[i] != '\\' && s[i] != '\n' {
        body_end(s, i + 1, q)
    } else {
        i
    }
}

/// Where a reference begins at position `i` of `s`, the bounds of the path
/// that it names.
///
/// A reference is the letter `p` that does not continue an identifier or a
/// field access, an opening bracket, a path between two quotes of the same
/// kind, and a closing bracket; blanks may stand inside the brackets. The
/// path holds no backslash and no line break.
pub open spec fn ref_at(s: Seq<char>, i: int) -> Option<(int, int)> {
    if 0 <= i && i + 1 < s.len() && s[i] == 'p' && s[i + 1] == '(' && (i == 0 || !(is_ident_char(
        s[i - 1],
    ) || s[i - 1] == '.' || s[i - 1] == ':')) {
        let a = skip_blanks(s, i + 2);
        if a < s.len() && (s[a] == '\'' || s[a] == '"') {
            let b = body_end(s, a + 1, s[a]);
            if b < s.len() && s[b] == s[a] {
                let c = skip_blanks(s, b + 1);
                if c < s.len() && s[c] == ')' {
                    Some((a + 1, b))
                } else {
                    None
                }
            } else {
                None
            }
        } else {
            None
        }
    } else {
        None
    }
}

/// The paths of the references that begin at position `i` of `s` or later,
/// in the order in which they stand.
pub open spec fn ref_paths_from(s: Seq<char>, i: int) -> Seq<Seq<char>>
    decreases s.len() - i,
{
    if i < 0 || i >= s.len() {
        Seq::empty()
    } else {
        match ref_at(s, i) {
            Some((a, b)) => seq![s.subrange(a, b)] + ref_paths_from(s, i + 1),
            None => ref_paths_from(s, i + 1),
        }
    }
}

/// The paths of all references that the source text `s` spells out.
pub open spec fn ref_paths(s: Seq<char>) -> Seq<Seq<char>> {
    ref_paths_from(s, 0)
}

/// Copies the characters of a text into a vector.
pub fn to_chars(s: &str) -> (v: Vec<char>)
    ensures
        v@ == s@,
{
    let len = s.unicode_len();
    let mut v: Vec<char> = Vec::new();
    let mut i: usize = 0;
    while i < len
        invariant
            len == s@.len(),
            i <= len,
            v@ == s@.subrange(0, i as int),
        decreases len - i,
    {
        v.push(s.get_char(i));
        assert(v@ == s@.subrange(0, i + 1));
        i += 1;
    }
    assert(s@.subrange(0, len as int) == s@);
    v
}

fn ident_char(c: char) -> (b: bool)
    ensures
        b == is_ident_char(c),
{
    ('a' <= c && c <= 'z') || ('A' <= c && c <= 'Z') || ('0' <= c && c <= '9') || c == '_'
}

fn skip_blanks_exec(v: &Vec<char>, i: usize) -> (j: usize)
    requires
        i <= v.len(),
    ensures
        j == skip_blanks(v@, i as int),
        i <= j <= v.len(),
{
    let mut j = i;
    while j < v.len() && (v[j] == ' ' || v[j] == '\t')
        invariant
            i <= j <= v.len(),
            skip_blanks(v@, i as int) == skip_blanks(v@, j as int),
        decreases v.len() - j,
    {
        j += 1;
    }
    j
}

fn body_end_exec(v: &Vec<char>, i: usize, q: char) -> (j: usize)
    requires
        i <= v.len(),
    ensures
        j == body_end(v@, i as int, q),
        i <= j <= v.len(),
{
    let mut j = i;
    while j < v.len() && v[j] != q && v[j] != '\\' && v[j] != '\n'
        invariant
            i <= j <= v.len(),
            body_end(v@, i as int, q) == body_end(v@, j as int, q),
        decreases v.len() - j,
    {
        j += 1;
    }
    j
}

fn ref_at_exec(v: &Vec<char>, i: usize) -> (r: Option<(usize, usize)>)
    requires
        i < v.len(),
    ensures
        match r {
            Some((a, b)) => ref_at(v@, i as int) == Some((a as int, b as int)) && a <= b <= v.len(),
            None => ref_at(v@, i as int) is None,
        },
{
    if v.len() - i < 2 {
        return None;
    }
    if v[i] != 'p' || v[i + 1] != '(' {
        return None;
    }
    if i > 0 {
        let before = v[i - 1];
        if ident_char(before) || before == '.' || before == ':' {
            return None;
        }
    }
    let a = skip_blanks_exec(v, i + 2);
    if a >= v.len() {
        return None;
    }
    let q = v[a];
    if q != '\'' && q != '"' {
        return None;
    }
    let b = body_end_exec(v, a + 1, q);
    if b >= v.len() || v[b] != q {
        return None;
    }
    let c = skip_blanks_exec(v, b + 1);
    if c >= v.len() || v[c] != ')' {
        return None;
    }
    Some((a + 1, b))
}

/// Lists the paths of the references that the source text spells out, in the
/// order in which they stand.
pub fn scan_refs(code: &str) -> (paths: Vec<String>)
    ensures
        paths@.len() == ref_paths(code@).len(),
        forall|i: int| 0 <= i < paths@.len() ==> (#[trigger] paths@[i])@ == ref_paths(code@)[i],
{
    let v = to_chars(code);
    let mut paths: Vec<String> = Vec::new();
    let ghost mut done: Seq<Seq<char>> = Seq::empty();
    let mut i: usize = 0;
    while i < v.len()
        invariant
            v@ == code@,
            i <= v.len(),
            paths@.len() == done.len(),
            forall|j: int| 0 <= j < paths@.len() ==> (#[trigger] paths@[j])@ == done[j],
            ref_paths(code@) == done + ref_paths_from(code@, i as int),
        decreases v.len() - i,
    {
        match ref_at_exec(&v, i) {
            Some((a, b)) => {
                let piece = String::from_str(code.substring_char(a, b));
                proof {
                    assert(done + (seq![piece@] + ref_paths_from(code@, i + 1)) =~= done.push(piece@)
                        + ref_paths_from(code@, i + 1));
                    done = done.push(piece@);
                }
                paths.push(piece);
            },
            None => {},
        }
        i += 1;
    }
    assert(done + Seq::<Seq<char>>::empty() =~= done);
    paths
}

} // verus!
