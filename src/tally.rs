//! Counts of eligible records: how many in all, and per domain how many were
//! server errors.
use vstd::prelude::*;

verus! {

/// What a tally counts: `total` eligible records, and for each domain that had
/// any, the number of its eligible records with a server-error status.
pub struct TallyView {
    pub total: nat,
    pub errors: Map<Seq<char>, nat>,
}

/// The count of `key` in `m`, zero where absent.
pub open spec fn count_in(m: Map<Seq<char>, nat>, key: Seq<char>) -> nat {
    if m.contains_key(key) {
        m[key]
    } else {
        0
    }
}

/// A status of 500 or above is a server error.
pub open spec fn is_server_error(status: u32) -> bool {
    status > 499
}

/// The tally that counts nothing.
pub open spec fn empty_view() -> TallyView {
    TallyView { total: 0, errors: Map::empty() }
}

/// `t` after one more eligible record, of `domain` with `status`.
pub open spec fn add_record(t: TallyView, domain: Seq<char>, status: u32) -> TallyView {
    TallyView {
        total: t.total + 1,
        errors: if is_server_error(status) {
            t.errors.insert(domain, count_in(t.errors, domain) + 1)
        } else {
            t.errors
        },
    }
}

/// Per-key sums of two count maps.
pub open spec fn merge_errors(x: Map<Seq<char>, nat>, y: Map<Seq<char>, nat>) -> Map<
    Seq<char>,
    nat,
> {
    Map::new(
        |k: Seq<char>| x.contains_key(k) || y.contains_key(k),
        |k: Seq<char>| count_in(x, k) + count_in(y, k),
    )
}

/// Two tallies added together.
pub open spec fn merge_view(a: TallyView, b: TallyView) -> TallyView {
    TallyView { total: a.total + b.total, errors: merge_errors(a.errors, b.errors) }
}

/// No domain has more server errors than there are eligible records.
pub open spec fn bounded(t: TallyView) -> bool {
    forall|k: Seq<char>| #[trigger] t.errors.contains_key(k) ==> t.errors[k] <= t.total
}

/// The map from each domain of `d` to the count at the same place of `c`.
pub open spec fn counts_map(d: Seq<String>, c: Seq<u64>) -> Map<Seq<char>, nat>
    decreases d.len(),
{
    if d.len() == 0 || c.len() == 0 {
        Map::empty()
    } else {
        counts_map(d.drop_last(), c.drop_last()).insert(d.last()@, c.last() as nat)
    }
}

pub open spec fn distinct(d: Seq<String>) -> bool {
    forall|i: int, j: int| 0 <= i < d.len() && 0 <= j < d.len() && i != j ==> d[i]@ != d[j]@
}

proof fn lemma_counts_dom(d: Seq<String>, c: Seq<u64>, k: Seq<char>)
    requires
        d.len() == c.len(),
    ensures
        counts_map(d, c).contains_key(k) <==> exists|i: int| 0 <= i < d.len() && d[i]@ == k,
    decreases d.len(),
{
    if d.len() > 0 {
        lemma_counts_dom(d.drop_last(), c.drop_last(), k);
        if exists|i: int| 0 <= i < d.len() && d[i]@ == k {
            let i = choose|i: int| 0 <= i < d.len() && d[i]@ == k;
            if i < d.len() - 1 {
                assert(d.drop_last()[i]@ == k);
            }
        }
        if exists|i: int| 0 <= i < d.len() - 1 && d.drop_last()[i]@ == k {
            let i = choose|i: int| 0 <= i < d.len() - 1 && d.drop_last()[i]@ == k;
            assert(d[i]@ == k);
        }
    }
}

proof fn lemma_counts_at(d: Seq<String>, c: Seq<u64>, i: int)
    requires
        d.len() == c.len(),
        distinct(d),
        0 <= i < d.len(),
    ensures
        counts_map(d, c).contains_key(d[i]@),
        counts_map(d, c)[d[i]@] == c[i] as nat,
    decreases d.len(),
{
    if i < d.len() - 1 {
        lemma_counts_at(d.drop_last(), c.drop_last(), i);
        assert(d[i]@ != d.last()@);
    }
}

proof fn lemma_counts_update(d: Seq<String>, c: Seq<u64>, i: int, v: u64)
    requires
        d.len() == c.len(),
        distinct(d),
        0 <= i < d.len(),
    ensures
        counts_map(d, c.update(i, v)) == counts_map(d, c).insert(d[i]@, v as nat),
    decreases d.len(),
{
    let c2 = c.update(i, v);
    if i == d.len() - 1 {
        assert(c2.drop_last() =~= c.drop_last());
        assert(counts_map(d, c2) =~= counts_map(d, c).insert(d[i]@, v as nat));
    } else {
        assert(c2.drop_last() =~= c.drop_last().update(i, v));
        lemma_counts_update(d.drop_last(), c.drop_last(), i, v);
        assert(d[i]@ != d.last()@);
        assert(counts_map(d, c2) =~= counts_map(d, c).insert(d[i]@, v as nat));
    }
}

proof fn lemma_counts_len(d: Seq<String>, c: Seq<u64>)
    requires
        d.len() == c.len(),
        distinct(d),
    ensures
        counts_map(d, c).dom().finite(),
        counts_map(d, c).dom().len() == d.len(),
    decreases d.len(),
{
    if d.len() > 0 {
        let d1 = d.drop_last();
        lemma_counts_len(d1, c.drop_last());
        lemma_counts_dom(d1, c.drop_last(), d.last()@);
        assert(!counts_map(d1, c.drop_last()).contains_key(d.last()@)) by {
            if exists|i: int| 0 <= i < d1.len() && d1[i]@ == d.last()@ {
                let i = choose|i: int| 0 <= i < d1.len() && d1[i]@ == d.last()@;
                assert(d[i]@ == d[d.len() - 1]@);
            }
        }
    }
}

/// Eligible records counted, in all and per domain for server errors.
#[derive(Clone)]
pub struct Tally {
    total: u64,
    domains: Vec<String>,
    counts: Vec<u64>,
}

impl View for Tally {
    type V = TallyView;

    closed spec fn view(&self) -> TallyView {
        TallyView { total: self.total as nat, errors: counts_map(self.domains@, self.counts@) }
    }
}

impl Tally {
    /// Domains are distinct, each counted at least once and at most `total` times.
    pub closed spec fn wf(&self) -> bool {
        &&& self.domains@.len() == self.counts@.len()
        &&& distinct(self.domains@)
        &&& forall|i: int|
            0 <= i < self.counts@.len() ==> 0 < #[trigger] self.counts@[i] <= self.total
    }

    pub proof fn lemma_wf_bounded(&self)
        requires
            self.wf(),
        ensures
            bounded(self@),
            forall|k: Seq<char>| #[trigger] self@.errors.contains_key(k) ==> self@.errors[k] > 0,
    {
        assert forall|k: Seq<char>| #[trigger] self@.errors.contains_key(k) implies 0
            < self@.errors[k] <= self@.total by {
            lemma_counts_dom(self.domains@, self.counts@, k);
            let i = choose|i: int| 0 <= i < self.domains@.len() && self.domains@[i]@ == k;
            lemma_counts_at(self.domains@, self.counts@, i);
        }
    }

    /// A tally of no records.
    pub fn new() -> (r: Tally)
        ensures
            r.wf(),
            r@ == empty_view(),
    {
        let r = Tally { total: 0, domains: Vec::new(), counts: Vec::new() };
        assert(r@.errors =~= Map::empty());
        r
    }

    /// The number of eligible records.
    pub fn total(&self) -> (r: u64)
        ensures
            r == self@.total,
    {
        self.total
    }

    /// Where `domain` stands among the domains.
    fn find(&self, domain: &String) -> (r: Option<usize>)
        requires
            self.wf(),
        ensures
            match r {
                Some(i) => i < self.domains@.len() && self.domains@[i as int]@ == domain@,
                None => !self@.errors.contains_key(domain@),
            },
    {
        let mut i: usize = 0;
        while i < self.domains.len()
            invariant
                self.wf(),
                i <= self.domains@.len(),
                forall|j: int| 0 <= j < i ==> self.domains@[j]@ != domain@,
            decreases self.domains@.len() - i,
        {
            if self.domains[i] == *domain {
                return Some(i);
            }
            i = i + 1;
        }
        proof {
            lemma_counts_dom(self.domains@, self.counts@, domain@);
        }
        None
    }

    /// The number of server errors counted for `domain`.
    pub fn errors_of(&self, domain: &str) -> (r: u64)
        requires
            self.wf(),
        ensures
            r == count_in(self@.errors, domain@),
    {
        match self.find(&domain.to_owned()) {
            Some(i) => {
                proof {
                    lemma_counts_at(self.domains@, self.counts@, i as int);
                }
                self.counts[i]
            },
            None => 0,
        }
    }

    /// The number of domains with a server error.
    pub fn domain_count(&self) -> (r: usize)
        requires
            self.wf(),
        ensures
            r == self@.errors.dom().len(),
    {
        proof {
            lemma_counts_len(self.domains@, self.counts@);
        }
        self.domains.len()
    }

    /// The domains and their counts, each domain once.
    pub fn entries(&self) -> (r: Vec<(String, u64)>)
        requires
            self.wf(),
        ensures
            r@.len() == self@.errors.dom().len(),
            forall|i: int|
                0 <= i < r@.len() ==> #[trigger] self@.errors.contains_key(r@[i].0@)
                    && self@.errors[r@[i].0@] == r@[i].1,
            forall|i: int, j: int| 0 <= i < j < r@.len() ==> r@[i].0@ != r@[j].0@,
    {
        proof {
            lemma_counts_len(self.domains@, self.counts@);
        }
        let mut r: Vec<(String, u64)> = Vec::new();
        for i in 0..self.domains.len()
            invariant
                self.wf(),
                r@.len() == i,
                forall|j: int|
                    0 <= j < i ==> (#[trigger] r@[j]).0@ == self.domains@[j]@ && r@[j].1
                        == self.counts@[j],
        {
            r.push((self.domains[i].clone(), self.counts[i]));
        }
        assert forall|i: int|
            0 <= i < r@.len() implies #[trigger] self@.errors.contains_key(r@[i].0@)
            && self@.errors[r@[i].0@] == r@[i].1 by {
            lemma_counts_at(self.domains@, self.counts@, i);
        }
        r
    }

    /// Adds `n` server errors of `domain`.
    fn add_errors(&mut self, domain: &String, n: u64)
        requires
            old(self).wf(),
            0 < n,
            count_in(old(self)@.errors, domain@) + n <= old(self).total,
        ensures
            final(self).wf(),
            final(self)@ == (TallyView {
                total: old(self)@.total,
                errors: old(self)@.errors.insert(domain@, (count_in(old(self)@.errors, domain@) + n) as nat),
            }),
    {
        match self.find(domain) {
            Some(i) => {
                proof {
                    lemma_counts_at(self.domains@, self.counts@, i as int);
                    lemma_counts_update(self.domains@, self.counts@, i as int, (self.counts@[i as int] + n) as u64);
                }
                let c = self.counts[i];
                self.counts.set(i, c + n);
            },
            None => {
                proof {
                    lemma_counts_dom(self.domains@, self.counts@, domain@);
                }
                self.domains.push(domain.clone());
                self.counts.push(n);
                proof {
                    assert(self.domains@.drop_last() =~= old(self).domains@);
                    assert(self.counts@.drop_last() =~= old(self).counts@);
                }
            },
        }
    }

    /// Counts one more eligible record, of `domain` with `status`.
    pub fn count_record(&mut self, domain: &String, status: u32)
        requires
            old(self).wf(),
            old(self)@.total < u64::MAX,
        ensures
            final(self).wf(),
            final(self)@ == add_record(old(self)@, domain@, status),
    {
        proof {
            self.lemma_wf_bounded();
            if self@.errors.contains_key(domain@) {
                assert(self@.errors[domain@] <= self@.total);
            }
        }
        self.total = self.total + 1;
        if status > 499 {
            self.add_errors(domain, 1);
        }
    }

    /// This tally and `other` added together: totals add up, and so do the
    /// counts of each domain.
    pub fn merge(self, other: &Tally) -> (r: Tally)
        requires
            self.wf(),
            other.wf(),
            self@.total + other@.total <= u64::MAX,
        ensures
            r.wf(),
            r@ == merge_view(self@, other@),
    {
        let ghost first = self@;
        proof {
            self.lemma_wf_bounded();
        }
        let mut r = self;
        r.total = r.total + other.total;
        let mut i: usize = 0;
        assert(other.domains@.take(0) =~= Seq::<String>::empty());
        assert(merge_errors(first.errors, Map::empty()) =~= first.errors);
        while i < other.domains.len()
            invariant
                r.wf(),
                other.wf(),
                first.total + other@.total == r@.total,
                bounded(first),
                i <= other.domains@.len(),
                r@.errors == merge_errors(
                    first.errors,
                    counts_map(other.domains@.take(i as int), other.counts@.take(i as int)),
                ),
            decreases other.domains@.len() - i,
        {
            let ghost prefix = counts_map(
                other.domains@.take(i as int),
                other.counts@.take(i as int),
            );
            let ghost key = other.domains@[i as int]@;
            let ghost n = other.counts@[i as int];
            proof {
                lemma_counts_dom(other.domains@.take(i as int), other.counts@.take(i as int), key);
                assert(!prefix.contains_key(key)) by {
                    if exists|j: int| 0 <= j < i && other.domains@.take(i as int)[j]@ == key {
                        let j = choose|j: int|
                            0 <= j < i && other.domains@.take(i as int)[j]@ == key;
                        assert(other.domains@[j]@ == other.domains@[i as int]@);
                    }
                }
                assert(other.domains@.take(i + 1).drop_last() =~= other.domains@.take(i as int));
                assert(other.counts@.take(i + 1).drop_last() =~= other.counts@.take(i as int));
                if first.errors.contains_key(key) {
                    assert(first.errors[key] <= first.total);
                }
                assert(count_in(r@.errors, key) == count_in(first.errors, key));
            }
            r.add_errors(&other.domains[i], other.counts[i]);
            proof {
                let next = counts_map(
                    other.domains@.take(i + 1),
                    other.counts@.take(i + 1),
                );
                assert(next == prefix.insert(key, n as nat));
                assert(r@.errors =~= merge_errors(first.errors, next));
            }
            i = i + 1;
        }
        assert(other.domains@.take(i as int) =~= other.domains@);
        assert(other.counts@.take(i as int) =~= other.counts@);
        r
    }
}

/// Merging is commutative: the order of two tallies does not matter.
pub proof fn lemma_merge_commutative(a: TallyView, b: TallyView)
    ensures
        merge_view(a, b) == merge_view(b, a),
{
    assert(merge_errors(a.errors, b.errors) =~= merge_errors(b.errors, a.errors));
}

/// Merging is associative: how tallies are grouped does not matter.
pub proof fn lemma_merge_associative(a: TallyView, b: TallyView, c: TallyView)
    ensures
        merge_view(merge_view(a, b), c) == merge_view(a, merge_view(b, c)),
{
    assert(merge_errors(merge_errors(a.errors, b.errors), c.errors) =~= merge_errors(
        a.errors,
        merge_errors(b.errors, c.errors),
    ));
}

/// The empty tally is the identity of merging.
pub proof fn lemma_merge_identity(t: TallyView)
    ensures
        merge_view(t, empty_view()) == t,
        merge_view(empty_view(), t) == t,
{
    assert(merge_errors(t.errors, Map::empty()) =~= t.errors);
    assert(merge_errors(Map::empty(), t.errors) =~= t.errors);
}

/// A record with status 500 counts as a server error of its domain; one with
/// status 499 does not.
pub proof fn lemma_status_boundary(t: TallyView, domain: Seq<char>)
    ensures
        add_record(t, domain, 500).errors == t.errors.insert(domain, count_in(t.errors, domain) + 1),
        add_record(t, domain, 499).errors == t.errors,
{
}

} // verus!
