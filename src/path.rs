//! Absolute paths within the directory tree.
//!
//! A path is a string that begins with `/`. The root is `/` alone; any other
//! path is a sequence of non-empty components, each preceded by `/`.
use vstd::prelude::*;
use vstd::string::*;

verus! {

/// The character that separates the components of a path.
pub open spec fn is_sep(c: char) -> bool {
    c == '/'
}

/// The root path `/`.
pub open spec fn root_seq() -> Seq<char> {
    seq!['/']
}

/// A component: non-empty, and free of separators.
pub open spec fn valid_component(c: Seq<char>) -> bool {
    &&& c.len() > 0
    &&& forall|i: int| 0 <= i < c.len() ==> !is_sep(#[trigger] c[i])
}

/// An absolute path: `/`, or `/` followed by components joined by `/`.
pub open spec fn valid_path(s: Seq<char>) -> bool {
    &&& s.len() >= 1
    &&& is_sep(s[0])
    &&& s.len() == 1 || !is_sep(s.last())
    &&& forall|i: int| 0 <= i < s.len() - 1 ==> !(is_sep(#[trigger] s[i]) && is_sep(s[i + 1]))
}

/// Index of the last separator in `s`, or -1 when there is none.
pub open spec fn last_sep(s: Seq<char>) -> int
    decreases s.len(),
{
    if s.len() == 0 {
        -1
    } else if is_sep(s.last()) {
        s.len() - 1
    } else {
        last_sep(s.drop_last())
    }
}

/// The path with its last component removed (the root is its own parent here).
pub open spec fn parent_seq(s: Seq<char>) -> Seq<char> {
    if last_sep(s) <= 0 {
        root_seq()
    } else {
        s.subrange(0, last_sep(s))
    }
}

/// The parent of a path, or none for the root.
pub open spec fn spec_parent(s: Seq<char>) -> Option<Seq<char>> {
    if s.len() <= 1 {
        None
    } else {
        Some(parent_seq(s))
    }
}

/// The last component of a path; empty for the root.
pub open spec fn spec_entry_name(s: Seq<char>) -> Seq<char> {
    s.subrange(last_sep(s) + 1, s.len() as int)
}

/// The components of a path, in order.
pub open spec fn spec_components(s: Seq<char>) -> Seq<Seq<char>>
    decreases s.len(),
{
    if s.len() <= 1 || parent_seq(s).len() >= s.len() {
        seq![]
    } else {
        spec_components(parent_seq(s)).push(spec_entry_name(s))
    }
}

/// `p` extended by the component `c`.
pub open spec fn spec_push(p: Seq<char>, c: Seq<char>) -> Seq<char> {
    if p.len() > 0 && is_sep(p.last()) {
        p + c
    } else {
        p.push('/') + c
    }
}

pub proof fn lemma_last_sep_bounds(s: Seq<char>)
    ensures
        -1 <= last_sep(s) < s.len(),
        last_sep(s) >= 0 ==> is_sep(s[last_sep(s)]),
        forall|i: int| last_sep(s) < i < s.len() ==> !is_sep(#[trigger] s[i]),
    decreases s.len(),
{
    if s.len() > 0 && !is_sep(s.last()) {
        lemma_last_sep_bounds(s.drop_last());
        assert forall|i: int| last_sep(s) < i < s.len() implies !is_sep(#[trigger] s[i]) by {
            if i < s.len() - 1 {
                assert(s[i] == s.drop_last()[i]);
            }
        }
    }
}

/// The last separator of `p + "/" + c`, for a component `c`, is the one added.
pub proof fn lemma_last_sep_push(p: Seq<char>, c: Seq<char>)
    requires
        forall|i: int| 0 <= i < c.len() ==> !is_sep(#[trigger] c[i]),
    ensures
        last_sep(p.push('/') + c) == p.len(),
    decreases c.len(),
{
    let s = p.push('/') + c;
    if c.len() == 0 {
        assert(s =~= p.push('/'));
    } else {
        assert(s.drop_last() =~= p.push('/') + c.drop_last());
        lemma_last_sep_push(p, c.drop_last());
    }
}

/// Pushing a component and taking the parent and the name gives both back.
pub proof fn lemma_push_parent_name(p: Seq<char>, c: Seq<char>)
    requires
        valid_path(p),
        valid_component(c),
    ensures
        valid_path(spec_push(p, c)),
        spec_parent(spec_push(p, c)) == Some(p),
        spec_entry_name(spec_push(p, c)) == c,
        spec_components(spec_push(p, c)) == spec_components(p).push(c),
{
    let s = spec_push(p, c);
    if p.len() == 1 {
        assert(p =~= seq!['/']);
        assert(s =~= seq![] + seq!['/'] + c);
        let e: Seq<char> = seq![];
        lemma_last_sep_push(e, c);
        assert(e.push('/') + c =~= s);
        assert(parent_seq(s) == root_seq());
        assert(p =~= root_seq());
        assert(spec_entry_name(s) =~= c);
    } else {
        assert(s == p.push('/') + c);
        lemma_last_sep_push(p, c);
        assert(s.subrange(0, p.len() as int) =~= p);
        assert(spec_entry_name(s) =~= c);
    }
    assert forall|i: int| 0 <= i < s.len() - 1 implies !(is_sep(#[trigger] s[i]) && is_sep(
        s[i + 1],
    )) by {
        if p.len() == 1 {
            if i >= 1 {
                assert(s[i] == c[i - 1]);
            }
        } else {
            if i < p.len() - 1 {
                assert(s[i] == p[i] && s[i + 1] == p[i + 1]);
            } else if i == p.len() - 1 {
                assert(s[i] == p.last());
            } else {
                assert(s[i + 1] == c[i + 1 - p.len() - 1]);
            }
        }
    }
    if p.len() == 1 {
        assert(s.last() == c.last());
    } else {
        assert(s.last() == c.last());
    }
}

/// Building `/a/b` by pushing `a` then `b` onto the root gives the string
/// `/a/b`, which is a valid path, so parsing it gives the same path.
pub proof fn lemma_push_matches_parse(a: Seq<char>, b: Seq<char>)
    requires
        valid_component(a),
        valid_component(b),
    ensures
        spec_push(spec_push(root_seq(), a), b) == seq!['/'] + a + seq!['/'] + b,
        valid_path(seq!['/'] + a + seq!['/'] + b),
{
    lemma_push_parent_name(root_seq(), a);
    lemma_push_parent_name(spec_push(root_seq(), a), b);
    assert(spec_push(root_seq(), a) =~= seq!['/'] + a);
    assert(spec_push(spec_push(root_seq(), a), b) =~= seq!['/'] + a + seq!['/'] + b);
}

/// The root has no parent, an empty name and no components.
pub proof fn lemma_root_boundaries()
    ensures
        spec_parent(root_seq()).is_none(),
        spec_entry_name(root_seq()) == Seq::<char>::empty(),
        spec_components(root_seq()) == Seq::<Seq<char>>::empty(),
{
    assert(last_sep(root_seq()) == 0);
    assert(spec_entry_name(root_seq()) =~= Seq::<char>::empty());
}

/// An owned builder of absolute paths.
#[derive(Debug, Default, Hash, Eq, PartialEq, Clone)]
pub struct PathBuf(String);

/// An absolute path.
#[derive(Debug, Hash, Eq, PartialEq, Clone)]
pub struct Path(String);

impl View for PathBuf {
    type V = Seq<char>;

    closed spec fn view(&self) -> Seq<char> {
        self.0@
    }
}

impl View for Path {
    type V = Seq<char>;

    closed spec fn view(&self) -> Seq<char> {
        self.0@
    }
}

impl PathBuf {
    /// A builder that holds the root path.
    pub fn new() -> (r: PathBuf)
        ensures
            r@ == root_seq(),
            valid_path(r@),
    {
        let r = PathBuf(String::from_str("/"));
        proof {
            reveal_strlit("/");
        }
        assert(r@ =~= root_seq());
        r
    }

    /// A copy of this builder.
    pub fn clone_path(&self) -> (r: PathBuf)
        ensures
            r@ == self@,
    {
        PathBuf(self.0.clone())
    }

    /// The path built so far.
    pub fn as_path(&self) -> (r: Path)
        ensures
            r@ == self@,
    {
        Path(self.0.clone())
    }

    /// Appends a component.
    pub fn push(&mut self, component: &str)
        requires
            valid_path(old(self)@),
            valid_component(component@),
        ensures
            final(self)@ == spec_push(old(self)@, component@),
            valid_path(final(self)@),
    {
        proof {
            lemma_push_parent_name(self@, component@);
        }
        let n = self.0.as_str().unicode_len();
        let last = self.0.as_str().get_char(n - 1);
        if last != '/' {
            self.0.append("/");
            proof {
                reveal_strlit("/");
                assert(self@ =~= old(self)@.push('/'));
            }
        }
        self.0.append(component);
    }
}

impl Path {
    /// The root path `/`.
    pub fn root() -> (r: Path)
        ensures
            r@ == root_seq(),
            valid_path(r@),
    {
        let r = Path(String::from_str("/"));
        proof {
            reveal_strlit("/");
        }
        assert(r@ =~= root_seq());
        r
    }

    /// An owned builder holding this path.
    pub fn to_path_buf(&self) -> (r: PathBuf)
        ensures
            r@ == self@,
    {
        PathBuf(self.0.clone())
    }

    /// The path as a string.
    pub fn as_str(&self) -> (r: &str)
        ensures
            r@ == self@,
    {
        self.0.as_str()
    }

    /// Parses `s` as an absolute path.
    pub fn new(s: &str) -> (r: Option<Path>)
        ensures
            r.is_some() == valid_path(s@),
            r.is_some() ==> r.unwrap()@ == s@,
    {
        let n = s.unicode_len();
        if n == 0 || s.get_char(0) != '/' {
            return None;
        }
        if n > 1 && s.get_char(n - 1) == '/' {
            return None;
        }
        let mut i: usize = 0;
        while i + 1 < n
            invariant
                n == s@.len(),
                n >= 1,
                i < n,
                forall|j: int| 0 <= j < i ==> !(is_sep(#[trigger] s@[j]) && is_sep(s@[j + 1])),
            decreases n - i,
        {
            if s.get_char(i) == '/' && s.get_char(i + 1) == '/' {
                return None;
            }
            i = i + 1;
        }
        Some(Path(String::from_str(s)))
    }

    /// Index of the last separator; a valid path has one.
    fn last_sep_index(&self) -> (k: usize)
        requires
            valid_path(self@),
        ensures
            k as int == last_sep(self@),
            k < self@.len(),
    {
        proof {
            lemma_last_sep_bounds(self@);
        }
        let n = self.0.as_str().unicode_len();
        let mut k: usize = n - 1;
        while self.0.as_str().get_char(k) != '/'
            invariant
                n == self@.len(),
                k < n,
                last_sep(self@) <= k,
                -1 <= last_sep(self@) < n,
                last_sep(self@) >= 0 ==> is_sep(self@[last_sep(self@)]),
                forall|i: int| last_sep(self@) < i < n ==> !is_sep(#[trigger] self@[i]),
                is_sep(self@[0]),
            decreases k,
        {
            k = k - 1;
        }
        k
    }

    /// The components of the path, in order; none for the root.
    pub fn components(&self) -> (r: Vec<String>)
        requires
            valid_path(self@),
        ensures
            r.deep_view() == spec_components(self@),
        decreases self@.len(),
    {
        let n = self.0.as_str().unicode_len();
        if n <= 1 {
            return Vec::new();
        }
        proof {
            lemma_parent_valid(self@);
        }
        let parent = self.parent_path();
        let mut r = parent.components();
        let name = self.name_string();
        r.push(name);
        proof {
            assert(r.deep_view() =~= spec_components(parent@).push(spec_entry_name(self@)));
        }
        r
    }

    /// The parent path, for a path other than the root.
    fn parent_path(&self) -> (r: Path)
        requires
            valid_path(self@),
            self@.len() > 1,
        ensures
            r@ == parent_seq(self@),
    {
        let k = self.last_sep_index();
        if k == 0 {
            Path::root()
        } else {
            Path(String::from_str(self.0.as_str().substring_char(0, k)))
        }
    }

    fn name_string(&self) -> (r: String)
        requires
            valid_path(self@),
        ensures
            r@ == spec_entry_name(self@),
    {
        let k = self.last_sep_index();
        let n = self.0.as_str().unicode_len();
        String::from_str(self.0.as_str().substring_char(k + 1, n))
    }

    /// The parent of this path (as `..` would name it); none for the root.
    pub fn parent(&self) -> (r: Option<Path>)
        requires
            valid_path(self@),
        ensures
            r.is_none() == (self@ == root_seq()),
            r.is_some() ==> Some(r.unwrap()@) == spec_parent(self@),
            r.is_some() ==> valid_path(r.unwrap()@),
    {
        let n = self.0.as_str().unicode_len();
        if n <= 1 {
            assert(self@ =~= root_seq());
            None
        } else {
            proof {
                lemma_parent_valid(self@);
            }
            assert(self@ != root_seq());
            Some(self.parent_path())
        }
    }

    /// The name of the entry this path refers to: its last component, or
    /// the empty string for the root.
    pub fn entry_name(&self) -> (r: Option<String>)
        requires
            valid_path(self@),
        ensures
            r.is_some(),
            r.unwrap()@ == spec_entry_name(self@),
    {
        Some(self.name_string())
    }
}

/// Whether two strings hold the same characters.
pub fn chars_eq(a: &str, b: &str) -> (r: bool)
    ensures
        r == (a@ == b@),
{
    let n = a.unicode_len();
    if n != b.unicode_len() {
        return false;
    }
    let mut i: usize = 0;
    while i < n
        invariant
            n == a@.len(),
            n == b@.len(),
            i <= n,
            forall|k: int| 0 <= k < i ==> a@[k] == b@[k],
        decreases n - i,
    {
        if a.get_char(i) != b.get_char(i) {
            return false;
        }
        i = i + 1;
    }
    assert(a@ =~= b@);
    true
}

/// The parent of a non-root path is a valid path, shorter than it.
pub proof fn lemma_parent_valid(s: Seq<char>)
    requires
        valid_path(s),
        s.len() > 1,
    ensures
        valid_path(parent_seq(s)),
        parent_seq(s).len() < s.len(),
        spec_components(s) == spec_components(parent_seq(s)).push(spec_entry_name(s)),
{
    lemma_last_sep_bounds(s);
    let k = last_sep(s);
    if k > 0 {
        let p = s.subrange(0, k);
        assert(is_sep(s[k]));
        assert(!is_sep(s[k - 1]));
        assert forall|i: int| 0 <= i < p.len() - 1 implies !(is_sep(#[trigger] p[i]) && is_sep(
            p[i + 1],
        )) by {
            assert(p[i] == s[i] && p[i + 1] == s[i + 1]);
        }
    }
}

} // verus!
