//! The temporary-directory handle, the allocation of a fresh name for it, and
//! the resolution of the root under which it is made.
use vstd::prelude::*;

use crate::suffix::{
    decimal, extension, has_extension, last_dot, lemma_decimal_has_no_dot, lemma_parse_decimal,
    name_after, next_name, parsed_i32, stem, suffix_value,
};

verus! {

/// The name of the first-level directory under the base root, unless
/// configured otherwise.
pub const ROOT_NAME_DEFAULT: &'static str = "rstest";

/// The `k`-th name tried for a directory requested as `name`: `name` itself,
/// then, after each collision, the name after the one before.
pub open spec fn candidate(name: Seq<char>, k: nat) -> Seq<char>
    decreases k,
{
    if k == 0 {
        name
    } else {
        name_after(candidate(name, (k - 1) as nat))
    }
}

/// A directory that was created for its owner: `name` under `root`. Unless
/// made permanent, the owner removes it, with all it holds, when the handle
/// goes out of scope.
pub struct TempDir {
    root: String,
    name: String,
    destroy: bool,
}

pub struct TempDirView {
    pub root: Seq<char>,
    pub name: Seq<char>,
    pub destroy: bool,
}

impl View for TempDir {
    type V = TempDirView;

    closed spec fn view(&self) -> TempDirView {
        TempDirView { root: self.root@, name: self.name@, destroy: self.destroy }
    }
}

impl TempDir {
    /// Keeps the directory when the handle goes out of scope.
    pub fn permanent(self) -> (r: Self)
        ensures
            r@.root == self@.root,
            r@.name == self@.name,
            !r@.destroy,
    {
        let mut t = self;
        t.destroy = false;
        t
    }

    /// The directory under which this one was created.
    pub fn root(&self) -> (r: &str)
        ensures
            r@ == self@.root,
    {
        self.root.as_str()
    }

    /// The name of the directory under its root.
    pub fn name(&self) -> (r: &str)
        ensures
            r@ == self@.name,
    {
        self.name.as_str()
    }

    /// Whether the directory is to be removed when the handle goes out of
    /// scope.
    pub fn removes_on_drop(&self) -> (r: bool)
        ensures
            r == self@.destroy,
    {
        self.destroy
    }
}

/// The search for a free name under `root`: the name now tried is the
/// `attempts`-th candidate for the requested one.
pub struct Allocation {
    root: String,
    name: String,
    current: String,
    destroy: bool,
    attempts: Ghost<nat>,
}

pub struct AllocationView {
    pub root: Seq<char>,
    pub name: Seq<char>,
    pub current: Seq<char>,
    pub destroy: bool,
    pub attempts: nat,
}

impl View for Allocation {
    type V = AllocationView;

    closed spec fn view(&self) -> AllocationView {
        AllocationView {
            root: self.root@,
            name: self.name@,
            current: self.current@,
            destroy: self.destroy,
            attempts: self.attempts@,
        }
    }
}

/// What one attempt to create the current name led to.
pub enum Attempt {
    /// The directory was created: it is owned by this handle.
    Created(TempDir),
    /// The name was taken: the search goes on with the next one.
    Taken(Allocation),
}

impl Allocation {
    pub open spec fn wf(&self) -> bool {
        self@.current == candidate(self@.name, self@.attempts)
    }

    /// Starts the search for a directory `name` under `root`; the directory
    /// found is removed at scope end where `destroy` holds.
    pub fn new(root: String, name: String, destroy: bool) -> (r: Allocation)
        ensures
            r.wf(),
            r@.root == root@,
            r@.name == name@,
            r@.current == name@,
            r@.destroy == destroy,
            r@.attempts == 0,
    {
        let current = name.clone();
        Allocation { root, name, current, destroy, attempts: Ghost(0) }
    }

    /// Starts the search that a default handle makes: under the configured
    /// root and name, or their defaults, and removed at scope end.
    pub fn with_defaults(
        base_override: Option<String>,
        name_override: Option<String>,
        system_temp: String,
    ) -> (r: Allocation)
        ensures
            r.wf(),
            r@.root == resolved_base(base_override, system_temp),
            r@.name == resolved_name(name_override),
            r@.current == r@.name,
            r@.destroy,
            r@.attempts == 0,
    {
        let (root, name) = resolve_root(base_override, name_override, system_temp);
        Allocation::new(root, name, true)
    }

    /// The directory under which a name is sought.
    pub fn root(&self) -> (r: &str)
        ensures
            r@ == self@.root,
    {
        self.root.as_str()
    }

    /// The name to try to create now, exclusively, under the root.
    pub fn current(&self) -> (r: &str)
        ensures
            r@ == self@.current,
    {
        self.current.as_str()
    }

    /// Moves the search on by what the attempt on the current name gave:
    /// `created` where the directory was made by this attempt, false where
    /// the name was taken.
    pub fn on_attempt(self, created: bool) -> (r: Attempt)
        requires
            self.wf(),
        ensures
            created <==> r is Created,
            r matches Attempt::Created(d) ==> {
                &&& d@.root == self@.root
                &&& d@.name == self@.current
                &&& d@.destroy == self@.destroy
            },
            r matches Attempt::Taken(a) ==> {
                &&& a.wf()
                &&& a@.root == self@.root
                &&& a@.name == self@.name
                &&& a@.current == name_after(self@.current)
                &&& a@.destroy == self@.destroy
                &&& a@.attempts == self@.attempts + 1
            },
    {
        if created {
            Attempt::Created(TempDir { root: self.root, name: self.current, destroy: self.destroy })
        } else {
            let current = next_name(self.current.as_str());
            Attempt::Taken(
                Allocation {
                    root: self.root,
                    name: self.name,
                    current,
                    destroy: self.destroy,
                    attempts: Ghost(self.attempts@ + 1),
                },
            )
        }
    }
}

pub open spec fn resolved_base(base_override: Option<String>, system_temp: String) -> Seq<char> {
    match base_override {
        Some(b) => b@,
        None => system_temp@,
    }
}

pub open spec fn resolved_name(name_override: Option<String>) -> Seq<char> {
    match name_override {
        Some(n) => n@,
        None => ROOT_NAME_DEFAULT@,
    }
}

/// The base root and the root name under which directories are made: each
/// configured value where there is one, else the system's temporary
/// directory and `ROOT_NAME_DEFAULT`.
pub fn resolve_root(
    base_override: Option<String>,
    name_override: Option<String>,
    system_temp: String,
) -> (r: (String, String))
    ensures
        r.0@ == resolved_base(base_override, system_temp),
        r.1@ == resolved_name(name_override),
{
    let base = match base_override {
        Some(b) => b,
        None => system_temp,
    };
    let name = match name_override {
        Some(n) => n,
        None => String::from_str(ROOT_NAME_DEFAULT),
    };
    (base, name)
}

proof fn lemma_last_dot_at(s: Seq<char>, p: int)
    requires
        0 <= p < s.len(),
        s[p] == '.',
        forall|i: int| p < i < s.len() ==> #[trigger] s[i] != '.',
    ensures
        last_dot(s) == p,
    decreases s.len(),
{
    if s.last() != '.' {
        assert forall|i: int| p < i < s.drop_last().len() implies #[trigger] s.drop_last()[i]
            != '.' by {
            assert(s.drop_last()[i] == s[i]);
        }
        lemma_last_dot_at(s.drop_last(), p);
    }
}

/// `a.` followed by a decimal has its last dot right after `a`.
proof fn lemma_split_dotted(a: Seq<char>, n: int)
    ensures
        last_dot(a + seq!['.'] + decimal(n)) == a.len(),
        (a + seq!['.'] + decimal(n)).subrange(0, a.len() as int) == a,
        (a + seq!['.'] + decimal(n)).subrange(a.len() as int + 1, (a + seq!['.'] + decimal(n)).len() as int)
            == decimal(n),
{
    let s = a + seq!['.'] + decimal(n);
    lemma_decimal_has_no_dot(n);
    assert forall|i: int| a.len() < i < s.len() implies #[trigger] s[i] != '.' by {
        assert(s[i] == decimal(n)[i - a.len() - 1]);
    }
    lemma_last_dot_at(s, a.len() as int);
    assert(s.subrange(0, a.len() as int) =~= a);
    assert(s.subrange(a.len() as int + 1, s.len() as int) =~= decimal(n));
}

proof fn lemma_stem_nonempty(name: Seq<char>)
    requires
        name.len() > 0,
    ensures
        stem(name).len() > 0,
{
    crate::suffix::lemma_last_dot(name);
}

/// From the first collision on, the candidates are the stem of the requested
/// name followed by successive numbers.
proof fn lemma_candidate_form(name: Seq<char>, k: nat)
    requires
        name.len() > 0,
        k >= 1,
        suffix_value(name) + k - 1 <= i32::MAX,
    ensures
        candidate(name, k) == stem(name) + seq!['.'] + decimal(suffix_value(name) + k),
    decreases k,
{
    assert(candidate(name, 0) == name);
    if k > 1 {
        let v = suffix_value(name) + k - 1;
        lemma_candidate_form(name, (k - 1) as nat);
        let c = candidate(name, (k - 1) as nat);
        lemma_stem_nonempty(name);
        lemma_split_dotted(stem(name), v);
        assert(has_extension(c));
        assert(stem(c) == stem(name));
        assert(extension(c) == decimal(v));
        lemma_suffix_value_range(name);
        lemma_parse_decimal(v);
        assert(suffix_value(c) == v);
        assert(candidate(name, k) == name_after(c));
    }
}

proof fn lemma_suffix_value_range(name: Seq<char>)
    ensures
        i32::MIN <= suffix_value(name) <= i32::MAX,
{
}

proof fn lemma_candidate_shift(name: Seq<char>, k: nat)
    ensures
        candidate(name, k + 1) == candidate(name_after(name), k),
    decreases k,
{
    assert(candidate(name, 0) == name);
    assert(candidate(name_after(name), 0) == name_after(name));
    if k > 0 {
        lemma_candidate_shift(name, (k - 1) as nat);
    }
}

proof fn lemma_distinct_nonempty(name: Seq<char>, i: nat, j: nat)
    requires
        name.len() > 0,
        i < j,
        suffix_value(name) + j <= i32::MAX,
    ensures
        candidate(name, i) != candidate(name, j),
{
    let st = stem(name);
    let v = suffix_value(name);
    lemma_suffix_value_range(name);
    lemma_candidate_form(name, j);
    lemma_split_dotted(st, v + j);
    lemma_parse_decimal(v + j);
    let cj = candidate(name, j);
    if i >= 1 {
        lemma_candidate_form(name, i);
        lemma_split_dotted(st, v + i);
        lemma_parse_decimal(v + i);
        let ci = candidate(name, i);
        if ci == cj {
            assert(decimal(v + i) == decimal(v + j));
        }
    } else if has_extension(name) {
        crate::suffix::lemma_last_dot(name);
        let p = last_dot(name);
        assert(name =~= st + seq!['.'] + extension(name));
        if name == cj {
            lemma_split_dotted(st, v + j);
            assert(extension(name) == decimal(v + j));
            assert(parsed_i32(extension(name)) == Some(v + j));
        }
    } else {
        assert(cj.len() > name.len());
    }
}

/// The names tried for one requested name never repeat, as long as their
/// numbers stay within `i32`: so two handles allocated from the same root
/// and name, with no deletion between, own different directories.
pub proof fn lemma_candidates_distinct(name: Seq<char>, i: nat, j: nat)
    requires
        i != j,
        suffix_value(name) + i <= i32::MAX,
        suffix_value(name) + j <= i32::MAX,
    ensures
        candidate(name, i) != candidate(name, j),
{
    let (lo, hi) = if i < j { (i, j) } else { (j, i) };
    if name.len() > 0 {
        lemma_distinct_nonempty(name, lo, hi);
    } else {
        let first = name_after(name);
        lemma_candidate_shift(name, (hi - 1) as nat);
        if lo == 0 {
            assert(candidate(name, hi).len() > 0);
        } else {
            lemma_candidate_shift(name, (lo - 1) as nat);
            assert(stem(name) =~= name);
            lemma_split_dotted(name, 1);
            assert(!has_extension(first));
            lemma_distinct_nonempty(first, (lo - 1) as nat, (hi - 1) as nat);
        }
    }
}

} // verus!
