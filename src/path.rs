use vstd::prelude::*;

verus! {

/// Whether `c` separates the components of a path.
pub open spec fn is_separator(c: char) -> bool {
    c == '/' || c == '\\'
}

/// ASCII lower case of one character; other characters are kept.
pub open spec fn ascii_lower(c: char) -> char {
    if 'A' <= c && c <= 'Z' {
        ((c as u32) + 32) as char
    } else {
        c
    }
}

/// The form in which two characters of paths are compared: separators
/// become `/`, ASCII letters become lower case.
pub open spec fn fold_path_char(c: char) -> char {
    if is_separator(c) {
        '/'
    } else {
        ascii_lower(c)
    }
}

/// `s` without its trailing separators.
pub open spec fn trim_separators(s: Seq<char>) -> Seq<char>
    decreases s.len(),
{
    if s.len() > 0 && is_separator(s.last()) {
        trim_separators(s.drop_last())
    } else {
        s
    }
}

/// The comparison key of a path: trailing separators dropped, each character
/// folded. Two paths are equal exactly when their keys are.
pub open spec fn path_key(s: Seq<char>) -> Seq<char> {
    trim_separators(s).map_values(|c: char| fold_path_char(c))
}

/// One path-like segment of an environment variable's value. Equality ignores
/// ASCII case, treats `/` and `\` alike and ignores trailing separators.
pub struct PathString(pub String);

impl PathString {
    pub open spec fn key_spec(&self) -> Seq<char> {
        path_key(self.0@)
    }

    pub fn as_str(&self) -> (r: &str)
        ensures
            r@ == self.0@,
    {
        self.0.as_str()
    }

    /// The comparison key of this path.
    pub fn key(&self) -> (r: Vec<char>)
        ensures
            r@ == self.key_spec(),
    {
        let chars = chars_of(self.0.as_str());
        let mut end: usize = chars.len();
        assert(chars@.take(end as int) =~= chars@);
        while end > 0 && (chars[end - 1] == '/' || chars[end - 1] == '\\')
            invariant
                end <= chars.len(),
                trim_separators(chars@) == trim_separators(chars@.take(end as int)),
            decreases end,
        {
            assert(chars@.take(end as int).drop_last() =~= chars@.take(end - 1));
            end = end - 1;
        }
        assert(chars@.take(chars.len() as int) =~= chars@);
        let ghost t = chars@.take(end as int);
        assert(trim_separators(t) == t);
        let mut out: Vec<char> = Vec::new();
        let mut i: usize = 0;
        while i < end
            invariant
                i <= end <= chars.len(),
                t == chars@.take(end as int),
                out@ =~= t.take(i as int).map_values(|c: char| fold_path_char(c)),
            decreases end - i,
        {
            let c = chars[i];
            let f = if c == '/' || c == '\\' {
                '/'
            } else {
                lower_char(c)
            };
            out.push(f);
            i = i + 1;
            assert(t.take(i as int) =~= t.take(i - 1).push(c));
        }
        assert(t.take(end as int) =~= t);
        out
    }
}

impl PartialEq for PathString {
    fn eq(&self, other: &PathString) -> (r: bool) {
        let a = self.key();
        let b = other.key();
        if a.len() != b.len() {
            return false;
        }
        let mut i: usize = 0;
        while i < a.len()
            invariant
                a.len() == b.len(),
                a@ == path_key(self.0@),
                b@ == path_key(other.0@),
                i <= a.len(),
                forall|j: int| 0 <= j < i ==> a@[j] == b@[j],
            decreases a.len() - i,
        {
            if a[i] != b[i] {
                assert(a@[i as int] != b@[i as int]);
                return false;
            }
            i = i + 1;
        }
        assert(a@ =~= b@);
        true
    }
}

impl vstd::std_specs::cmp::PartialEqSpecImpl for PathString {
    open spec fn obeys_eq_spec() -> bool {
        true
    }

    open spec fn eq_spec(&self, other: &PathString) -> bool {
        path_key(self.0@) == path_key(other.0@)
    }
}

impl From<String> for PathString {
    fn from(value: String) -> (r: PathString) {
        PathString(value)
    }
}

impl vstd::std_specs::convert::FromSpecImpl<String> for PathString {
    open spec fn obeys_from_spec() -> bool {
        true
    }

    open spec fn from_spec(v: String) -> PathString {
        PathString(v)
    }
}

/// Whether two path strings name the same path.
pub fn paths_equal(a: &PathString, b: &PathString) -> (r: bool)
    ensures
        r == (path_key(a.0@) == path_key(b.0@)),
{
    a.eq(b)
}

fn lower_char(c: char) -> (r: char)
    ensures
        r == ascii_lower(c),
{
    if 'A' <= c && c <= 'Z' {
        (((c as u32) + 32) as u8) as char
    } else {
        c
    }
}

/// The characters of `s`, in order.
pub fn chars_of(s: &str) -> (r: Vec<char>)
    ensures
        r@ == s@,
{
    let mut out: Vec<char> = Vec::new();
    for c in it: s.chars()
        invariant
            out@ == it.seq().take(it.index() as int),
    {
        out.push(c);
    }
    out
}

} // verus!
