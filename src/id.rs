use vstd::prelude::*;
use vstd::relations::injective_on;
use vstd::set_lib::{lemma_int_range, lemma_len_subset, lemma_map_size, set_int_range};

verus! {

/// Unit-tagged rate attached to a benchmark identity.
#[derive(Clone, Copy, Debug, PartialEq, Eq, Structural)]
pub enum Throughput {
    Bytes(u64),
    Elements(u64),
}

/// The logical key of an identity: group, function, parameter value and throughput.
pub type IdKey = (Seq<char>, Option<Seq<char>>, Option<Seq<char>>, Option<Throughput>);

pub open spec fn opt_view(o: Option<String>) -> Option<Seq<char>> {
    match o {
        Some(s) => Some(s@),
        None => None,
    }
}

/// The label built from the present parts of an identity, joined by `/`.
pub open spec fn base_label(g: Seq<char>, f: Option<Seq<char>>, v: Option<Seq<char>>) -> Seq<char> {
    let with_f = match f {
        Some(fs) => g + seq!['/'] + fs,
        None => g,
    };
    match v {
        Some(vs) => with_f + seq!['/'] + vs,
        None => with_f,
    }
}

/// What stands between a taken title and its number.
pub open spec fn title_sep() -> Seq<char> {
    seq![' ', '#']
}

/// What stands between a taken directory name and its number.
pub open spec fn directory_sep() -> Seq<char> {
    seq!['_']
}

/// True when some element of `v` has the characters `s`.
pub open spec fn has_name(v: Seq<String>, s: Seq<char>) -> bool {
    exists|i: int| 0 <= i < v.len() && (#[trigger] v[i])@ == s
}

/// Hierarchical benchmark identity, with its derived title and directory name.
#[derive(Clone, Debug)]
pub struct BenchmarkId {
    pub group_id: String,
    pub function_id: Option<String>,
    pub value_str: Option<String>,
    pub throughput: Option<Throughput>,
    pub title: String,
    pub directory_name: String,
}

impl BenchmarkId {
    pub open spec fn key(&self) -> IdKey {
        (self.group_id@, opt_view(self.function_id), opt_view(self.value_str), self.throughput)
    }

    pub open spec fn title_view(&self) -> Seq<char> {
        self.title@
    }

    pub open spec fn directory_view(&self) -> Seq<char> {
        self.directory_name@
    }

    pub open spec fn base(&self) -> Seq<char> {
        base_label(self.group_id@, opt_view(self.function_id), opt_view(self.value_str))
    }

    pub fn new(
        group_id: String,
        function_id: Option<String>,
        value_str: Option<String>,
        throughput: Option<Throughput>,
    ) -> (r: BenchmarkId)
        ensures
            r.group_id@ == group_id@,
            opt_view(r.function_id) == opt_view(function_id),
            opt_view(r.value_str) == opt_view(value_str),
            r.throughput == throughput,
            r.title_view() == r.base(),
            r.directory_view() == r.base(),
    {
        let label = join_label(&group_id, &function_id, &value_str);
        let directory_name = label.clone();
        BenchmarkId { group_id, function_id, value_str, throughput, title: label, directory_name }
    }

    /// A copy of the identity, its title and directory name included.
    pub fn duplicate(&self) -> (r: BenchmarkId)
        ensures
            r.key() == self.key(),
            r.title_view() == self.title_view(),
            r.directory_view() == self.directory_view(),
    {
        BenchmarkId {
            group_id: self.group_id.clone(),
            function_id: opt_clone(&self.function_id),
            value_str: opt_clone(&self.value_str),
            throughput: self.throughput,
            title: self.title.clone(),
            directory_name: self.directory_name.clone(),
        }
    }

    pub fn as_title(&self) -> (r: &str)
        ensures
            r@ == self.title_view(),
    {
        self.title.as_str()
    }

    pub fn as_directory_name(&self) -> (r: &str)
        ensures
            r@ == self.directory_view(),
    {
        self.directory_name.as_str()
    }

    /// Whether the two identities have the same group, function, value and throughput.
    pub fn same_identity(&self, other: &BenchmarkId) -> (r: bool)
        ensures
            r == (self.key() == other.key()),
    {
        self.group_id == other.group_id && opt_eq(&self.function_id, &other.function_id)
            && opt_eq(&self.value_str, &other.value_str) && self.throughput == other.throughput
    }

    /// Rewrites the title, if `existing` already holds it, into one that it does not hold.
    pub fn ensure_title_unique(&mut self, existing: &Vec<String>)
        ensures
            final(self).key() == old(self).key(),
            final(self).directory_view() == old(self).directory_view(),
            !has_name(existing@, final(self).title_view()),
            !has_name(existing@, old(self).title_view()) ==> final(self).title_view()
                == old(self).title_view(),
            has_name(existing@, old(self).title_view()) ==> exists|k: nat|
                2 <= k && final(self).title_view() == numbered(
                    old(self).title_view(),
                    title_sep(),
                    k,
                ) && forall|m: nat|
                    2 <= m < k ==> has_name(
                        existing@,
                        #[trigger] numbered(old(self).title_view(), title_sep(), m),
                    ),
    {
        proof {
            reveal_strlit(" #");
            assert(" #"@ =~= title_sep());
        }
        self.title = unique_name(&self.title, " #", existing);
    }

    /// Rewrites the directory name, if `existing` already holds it, into one that it does not hold.
    pub fn ensure_directory_name_unique(&mut self, existing: &Vec<String>)
        ensures
            final(self).key() == old(self).key(),
            final(self).title_view() == old(self).title_view(),
            !has_name(existing@, final(self).directory_view()),
            !has_name(existing@, old(self).directory_view()) ==> final(self).directory_view()
                == old(self).directory_view(),
            has_name(existing@, old(self).directory_view()) ==> exists|k: nat|
                2 <= k && final(self).directory_view() == numbered(
                    old(self).directory_view(),
                    directory_sep(),
                    k,
                ) && forall|m: nat|
                    2 <= m < k ==> has_name(
                        existing@,
                        #[trigger] numbered(old(self).directory_view(), directory_sep(), m),
                    ),
    {
        proof {
            reveal_strlit("_");
            assert("_"@ =~= directory_sep());
        }
        self.directory_name = unique_name(&self.directory_name, "_", existing);
    }
}

fn opt_clone(a: &Option<String>) -> (r: Option<String>)
    ensures
        opt_view(r) == opt_view(*a),
{
    match a {
        Some(x) => Some(x.clone()),
        None => None,
    }
}

fn opt_eq(a: &Option<String>, b: &Option<String>) -> (r: bool)
    ensures
        r == (opt_view(*a) == opt_view(*b)),
{
    match (a, b) {
        (Some(x), Some(y)) => *x == *y,
        (None, None) => true,
        _ => false,
    }
}

fn join_label(g: &String, f: &Option<String>, v: &Option<String>) -> (r: String)
    ensures
        r@ == base_label(g@, opt_view(*f), opt_view(*v)),
{
    proof {
        reveal_strlit("/");
    }
    let mut label = g.clone();
    if let Some(fs) = f {
        label.append("/");
        label.append(fs.as_str());
    }
    if let Some(vs) = v {
        label.append("/");
        label.append(vs.as_str());
    }
    label
}

/// Whether some element of `v` equals `s`.
pub fn contains_name(v: &Vec<String>, s: &String) -> (r: bool)
    ensures
        r == has_name(v@, s@),
{
    let mut i: usize = 0;
    while i < v.len()
        invariant
            i <= v.len(),
            forall|j: int| 0 <= j < i ==> (#[trigger] v@[j])@ != s@,
        decreases v.len() - i,
    {
        if v[i] == *s {
            return true;
        }
        i += 1;
    }
    false
}

pub open spec fn digit_char(d: nat) -> char {
    if d == 0 {
        '0'
    } else if d == 1 {
        '1'
    } else if d == 2 {
        '2'
    } else if d == 3 {
        '3'
    } else if d == 4 {
        '4'
    } else if d == 5 {
        '5'
    } else if d == 6 {
        '6'
    } else if d == 7 {
        '7'
    } else if d == 8 {
        '8'
    } else {
        '9'
    }
}

/// Decimal digits of `n`, without leading zeros.
pub open spec fn dec(n: nat) -> Seq<char>
    decreases n,
{
    if n < 10 {
        seq![digit_char(n)]
    } else {
        dec(n / 10).push(digit_char(n % 10))
    }
}

/// `base`, `sep` and the decimal digits of `n`.
pub open spec fn numbered(base: Seq<char>, sep: Seq<char>, n: nat) -> Seq<char> {
    base + sep + dec(n)
}

proof fn lemma_dec_len(n: nat)
    ensures
        dec(n).len() >= 1,
        n >= 10 ==> dec(n).len() >= 2,
    decreases n,
{
    if n >= 10 {
        lemma_dec_len(n / 10);
    }
}

proof fn lemma_dec_injective(a: nat, b: nat)
    requires
        dec(a) == dec(b),
    ensures
        a == b,
    decreases a,
{
    lemma_dec_len(a);
    lemma_dec_len(b);
    if a < 10 && b < 10 {
        assert(dec(a)[0] == digit_char(a));
        assert(dec(b)[0] == digit_char(b));
    } else if a >= 10 && b >= 10 {
        assert(dec(a).last() == digit_char(a % 10));
        assert(dec(b).last() == digit_char(b % 10));
        assert(dec(a).drop_last() == dec(a / 10));
        assert(dec(b).drop_last() == dec(b / 10));
        lemma_dec_injective(a / 10, b / 10);
    } else {
        assert(dec(a).len() != dec(b).len());
    }
}

proof fn lemma_numbered_injective(base: Seq<char>, sep: Seq<char>, a: nat, b: nat)
    requires
        numbered(base, sep, a) == numbered(base, sep, b),
    ensures
        a == b,
{
    let p = base + sep;
    assert(numbered(base, sep, a).subrange(p.len() as int, numbered(base, sep, a).len() as int)
        =~= dec(a));
    assert(numbered(base, sep, b).subrange(p.len() as int, numbered(base, sep, b).len() as int)
        =~= dec(b));
    lemma_dec_injective(a, b);
}

fn digit(d: u128) -> (r: &'static str)
    requires
        d < 10,
    ensures
        r@ == seq![digit_char(d as nat)],
{
    proof {
        reveal_strlit("0");
        reveal_strlit("1");
        reveal_strlit("2");
        reveal_strlit("3");
        reveal_strlit("4");
        reveal_strlit("5");
        reveal_strlit("6");
        reveal_strlit("7");
        reveal_strlit("8");
        reveal_strlit("9");
    }
    let r = match d {
        0 => "0",
        1 => "1",
        2 => "2",
        3 => "3",
        4 => "4",
        5 => "5",
        6 => "6",
        7 => "7",
        8 => "8",
        _ => "9",
    };
    assert(r@ =~= seq![digit_char(d as nat)]);
    r
}

/// Decimal digits of `n`.
fn decimal(n: u128) -> (r: String)
    ensures
        r@ == dec(n as nat),
    decreases n,
{
    if n < 10 {
        String::from_str(digit(n))
    } else {
        let head = decimal(n / 10);
        let r = head.concat(digit(n % 10));
        assert(r@ =~= dec(n as nat));
        r
    }
}

/// `base` itself when `existing` does not hold it; otherwise `base` and `sep` followed by
/// the smallest number from 2 on that gives a name outside `existing`.
pub fn unique_name(base: &String, sep: &str, existing: &Vec<String>) -> (r: String)
    requires
        sep@.len() > 0,
    ensures
        !has_name(existing@, r@),
        !has_name(existing@, base@) ==> r@ == base@,
        has_name(existing@, base@) ==> exists|k: nat|
            2 <= k && r@ == numbered(base@, sep@, k) && forall|m: nat|
                2 <= m < k ==> has_name(existing@, #[trigger] numbered(base@, sep@, m)),
{
    if !contains_name(existing, base) {
        return base.clone();
    }
    let mut n: usize = 0;
    while n < existing.len()
        invariant
            n <= existing@.len(),
            sep@.len() > 0,
            has_name(existing@, base@),
            forall|m: nat| 2 <= m < n + 2 ==> has_name(existing@, #[trigger] numbered(base@, sep@, m)),
        decreases existing.len() - n,
    {
        let number: u128 = n as u128 + 2;
        let candidate = base.clone().concat(sep).concat(decimal(number).as_str());
        assert(candidate@ =~= numbered(base@, sep@, number as nat));
        if !contains_name(existing, &candidate) {
            return candidate;
        }
        n += 1;
    }
    proof {
        lemma_names_exhausted(base@, sep@, existing@);
        assert(false);
    }
    base.clone()
}

/// Some numbered name from 2 to the length of `existing` plus 1 is not in `existing` when
/// `base` is: `base` and those names are more distinct names than it has elements.
proof fn lemma_names_exhausted(base: Seq<char>, sep: Seq<char>, existing: Seq<String>)
    requires
        sep.len() > 0,
        has_name(existing, base),
    ensures
        exists|m: nat|
            2 <= m < existing.len() + 2 && !has_name(existing, #[trigger] numbered(base, sep, m)),
{
    if forall|m: nat|
        2 <= m < existing.len() + 2 ==> has_name(existing, #[trigger] numbered(base, sep, m)) {
        lemma_more_names_than_room(base, sep, existing);
        lemma_int_range(1, existing.len() as int + 2);
        lemma_int_range(0, existing.len() as int);
    }
}

proof fn lemma_more_names_than_room(base: Seq<char>, sep: Seq<char>, existing: Seq<String>)
    requires
        sep.len() > 0,
        has_name(existing, base),
        forall|m: nat|
            2 <= m < existing.len() + 2 ==> has_name(existing, #[trigger] numbered(base, sep, m)),
    ensures
        set_int_range(1, existing.len() as int + 2).len() <= set_int_range(0, existing.len() as int).len(),
{
    let len = existing.len() as int;
    let name_of = |m: int| if m < 2 {
        base
    } else {
        numbered(base, sep, m as nat)
    };
    let f = |m: int| choose|j: int| 0 <= j < len && (#[trigger] existing[j])@ == name_of(m);
    let x = set_int_range(1, len + 2);
    let y = x.map(f);
    lemma_int_range(1, len + 2);
    lemma_int_range(0, len);
    assert forall|m: int| x.contains(m) implies 0 <= #[trigger] f(m) < len && existing[f(m)]@
        == name_of(m) by {
        if m >= 2 {
            assert(has_name(existing, numbered(base, sep, m as nat)));
        }
    }
    assert forall|a: int, b: int| x.contains(a) && x.contains(b) && #[trigger] f(a) == #[trigger] f(
        b,
    ) implies a == b by {
        lemma_dec_len(a as nat);
        lemma_dec_len(b as nat);
        if a >= 2 && b >= 2 {
            lemma_numbered_injective(base, sep, a as nat, b as nat);
        } else if a >= 2 {
            assert(name_of(a).len() > name_of(b).len());
        } else if b >= 2 {
            assert(name_of(b).len() > name_of(a).len());
        }
    }
    assert(injective_on(f, x));
    lemma_map_size(x, y, f);
    assert(y.subset_of(set_int_range(0, len)));
    lemma_len_subset(y, set_int_range(0, len));
}

} // verus!
