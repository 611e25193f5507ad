//! Day 5: print-queue ordering rules.
//!
//! The input lists rules `x|y` (page `x` must precede page `y`) and
//! update lines naming pages. Part one sums the middle page of the
//! updates that respect every applicable rule; part two reorders the
//! rest and sums their middle pages. Page numbers live below
//! [`PAGES`], which lets both collections be fixed-size tables.

use vstd::prelude::*;

verus! {

use vstd::std_specs::cmp::PartialEqSpec;

use crate::harness::error::Error;
use crate::harness::input::InputError;
use crate::harness::iter::{lines, split_lines};
use crate::parse::{digit_run, digits_val, is_digit, lemma_digit_run_bounds, parse_u32_bytes, str_num};

pub struct D5;

impl D5 {
    /// The day this module solves.
    pub fn day() -> (d: u8)
        ensures
            d == 5,
    {
        5
    }
}

/// Every page number is below this bound.
pub const PAGES: usize = 100;

/// A rule `(x, y)`: page `x` must be printed before page `y`.
pub type Rule = (u32, u32);

/// A map from page number to a value, as a fixed-size table.
pub struct PageMap<T>(pub Vec<Option<T>>);

/// A set of page numbers.
pub struct PageSet(pub PageMap<()>);

/// A page map is always exactly [`PAGES`] slots long.
pub open spec fn map_wf<T>(m: PageMap<T>) -> bool {
    m.0@.len() == PAGES
}

pub open spec fn set_wf(s: PageSet) -> bool {
    map_wf(s.0)
}

/// Membership in a page map.
pub open spec fn map_has<T>(m: PageMap<T>, p: u32) -> bool {
    0 <= p < PAGES && m.0@[p as int] is Some
}

/// Membership in a page set.
pub open spec fn set_has(s: PageSet, p: u32) -> bool {
    map_has(s.0, p)
}

/// How many of the slots from `k` on are filled.
pub open spec fn count_from<T>(m: Seq<Option<T>>, k: int) -> int
    decreases m.len() - k,
{
    if k < 0 || k >= m.len() {
        0
    } else {
        (if m[k] is Some {
            1int
        } else {
            0int
        }) + count_from(m, k + 1)
    }
}

/// How many slots from `k` on are filled in both maps.
pub open spec fn inter_from<T, U>(a: Seq<Option<T>>, b: Seq<Option<U>>, k: int) -> int
    decreases a.len() - k,
{
    if k < 0 || k >= a.len() {
        0
    } else {
        (if a[k] is Some && 0 <= k < b.len() && b[k] is Some {
            1int
        } else {
            0int
        }) + inter_from(a, b, k + 1)
    }
}

proof fn lemma_counts_bound<T, U>(a: Seq<Option<T>>, b: Seq<Option<U>>, k: int)
    ensures
        0 <= inter_from(a, b, k) <= count_from(a, k),
        count_from(a, k) <= (if 0 <= k <= a.len() {
            a.len() - k
        } else {
            0int
        }),
    decreases a.len() - k,
{
    if 0 <= k < a.len() {
        lemma_counts_bound(a, b, k + 1);
    }
}

/// The filled-slot count and the intersection count agree exactly
/// when every filled slot of `a` (from `k` on) is filled in `b`.
proof fn lemma_inter_subset<T, U>(a: Seq<Option<T>>, b: Seq<Option<U>>, k: int)
    requires
        a.len() == b.len(),
        0 <= k,
    ensures
        (inter_from(a, b, k) == count_from(a, k)) <==> (forall|p: int|
            k <= p < a.len() && (#[trigger] a[p]) is Some ==> b[p] is Some),
    decreases a.len() - k,
{
    if 0 <= k < a.len() {
        lemma_inter_subset(a, b, k + 1);
        lemma_counts_bound(a, b, k + 1);
    }
}

impl<T> PageMap<T> {
    /// An empty table.
    pub fn new() -> (r: PageMap<T>)
        ensures
            map_wf(r),
            forall|p: int| 0 <= p < PAGES ==> r.0@[p] is None,
    {
        let mut v: Vec<Option<T>> = Vec::new();
        let mut i: usize = 0;
        while i < PAGES
            invariant
                i <= PAGES,
                v@.len() == i,
                forall|p: int| 0 <= p < i ==> v@[p] is None,
            decreases PAGES - i,
        {
            v.push(None);
            i += 1;
        }
        PageMap(v)
    }

    /// Set the value for a page, replacing any previous one.
    pub fn add(&mut self, page: &u32, val: T)
        requires
            map_wf(*old(self)),
            *page < PAGES,
        ensures
            map_wf(*final(self)),
            final(self).0@ == old(self).0@.update(*page as int, Some(val)),
    {
        self.0.set(*page as usize, Some(val));
    }

    /// Clear a page's entry.
    pub fn del(&mut self, page: &u32)
        requires
            map_wf(*old(self)),
            *page < PAGES,
        ensures
            map_wf(*final(self)),
            final(self).0@ == old(self).0@.update(*page as int, None::<T>),
    {
        self.0.set(*page as usize, None);
    }

    /// The value stored for a page, if any.
    pub fn get(&self, page: &u32) -> (r: Option<&T>)
        requires
            map_wf(*self),
            *page < PAGES,
        ensures
            match r {
                Some(v) => self.0@[*page as int] == Some(*v),
                None => self.0@[*page as int] is None,
            },
    {
        self.0[*page as usize].as_ref()
    }

    /// Whether the page has an entry.
    pub fn has(&self, page: &u32) -> (r: bool)
        requires
            map_wf(*self),
            *page < PAGES,
        ensures
            r == map_has(*self, *page),
    {
        self.0[*page as usize].is_some()
    }

    /// How many pages have entries.
    #[verifier::loop_isolation(false)]
    pub fn len(&self) -> (r: u32)
        requires
            map_wf(*self),
        ensures
            r == count_from(self.0@, 0),
            r <= PAGES,
    {
        let mut count: u32 = 0;
        let mut p: usize = 0;
        proof {
            lemma_counts_bound::<T, T>(self.0@, self.0@, 0);
        }
        while p < PAGES
            invariant
                p <= PAGES,
                count + count_from(self.0@, p as int) == count_from(self.0@, 0),
                count <= p,
            decreases PAGES - p,
        {
            proof {
                lemma_counts_bound::<T, T>(self.0@, self.0@, p as int + 1);
            }
            if self.0[p].is_some() {
                count += 1;
            }
            p += 1;
        }
        count
    }

    /// How many pages have entries in both maps.
    #[verifier::loop_isolation(false)]
    pub fn intersect_count<U>(&self, other: &PageMap<U>) -> (r: u32)
        requires
            map_wf(*self),
            map_wf(*other),
        ensures
            r == inter_from(self.0@, other.0@, 0),
    {
        let mut count: u32 = 0;
        let mut p: usize = 0;
        proof {
            lemma_counts_bound(self.0@, other.0@, 0);
        }
        while p < PAGES
            invariant
                p <= PAGES,
                count + inter_from(self.0@, other.0@, p as int) == inter_from(
                    self.0@,
                    other.0@,
                    0,
                ),
                count <= p,
            decreases PAGES - p,
        {
            proof {
                lemma_counts_bound(self.0@, other.0@, p as int + 1);
            }
            if self.0[p].is_some() && other.0[p].is_some() {
                count += 1;
            }
            p += 1;
        }
        count
    }

    /// The entries of this map that differ from `other`'s: a page is
    /// kept, with a clone of this map's value, when `other` has no
    /// entry for it or an entry that compares unequal.
    #[verifier::loop_isolation(false)]
    pub fn difference(&self, other: &PageMap<T>) -> (r: PageMap<T>) where T: PartialEq + Clone
        requires
            map_wf(*self),
            map_wf(*other),
        ensures
            map_wf(r),
            forall|p: int| 0 <= p < PAGES && self.0@[p] is None ==> r.0@[p] is None,
            forall|p: int|
                0 <= p < PAGES && self.0@[p] is Some && other.0@[p] is None ==> r.0@[p] is Some
                    && cloned(self.0@[p].unwrap(), r.0@[p].unwrap()),
            T::obeys_eq_spec() ==> forall|p: int|
                0 <= p < PAGES ==> (if self.0@[p] is Some && (other.0@[p] is None || !(
                #[trigger] self.0@[p]).unwrap().eq_spec(&other.0@[p].unwrap())) {
                    r.0@[p] is Some && cloned(self.0@[p].unwrap(), r.0@[p].unwrap())
                } else {
                    r.0@[p] is None
                }),
    {
        let mut new: PageMap<T> = PageMap::new();
        let mut p: usize = 0;
        while p < PAGES
            invariant
                map_wf(new),
                p <= PAGES,
                forall|q: int| p <= q < PAGES ==> new.0@[q] is None,
                forall|q: int| 0 <= q < p && self.0@[q] is None ==> new.0@[q] is None,
                forall|q: int|
                    0 <= q < p && self.0@[q] is Some && other.0@[q] is None ==> new.0@[q] is Some
                        && cloned(self.0@[q].unwrap(), new.0@[q].unwrap()),
                T::obeys_eq_spec() ==> forall|q: int|
                    0 <= q < p ==> (if self.0@[q] is Some && (other.0@[q] is None || !(
                    #[trigger] self.0@[q]).unwrap().eq_spec(&other.0@[q].unwrap())) {
                        new.0@[q] is Some && cloned(self.0@[q].unwrap(), new.0@[q].unwrap())
                    } else {
                        new.0@[q] is None
                    }),
            decreases PAGES - p,
        {
            match (&self.0[p], &other.0[p]) {
                (Some(v), None) => {
                    new.add(&(p as u32), v.clone());
                },
                (Some(v), Some(w)) => {
                    if v != w {
                        new.add(&(p as u32), v.clone());
                    }
                },
                _ => {},
            }
            p += 1;
        }
        new
    }

    /// The pages that have entries, in increasing order.
    #[verifier::loop_isolation(false)]
    pub fn iter(&self) -> (r: Vec<u32>)
        requires
            map_wf(*self),
        ensures
            forall|q: u32| r@.contains(q) ==> map_has(*self, q),
            forall|p: int| 0 <= p < PAGES && self.0@[p] is Some ==> r@.contains(p as u32),
            forall|q: u32| r@.contains(q) ==> q < PAGES,
    {
        let mut r: Vec<u32> = Vec::new();
        let mut p: usize = 0;
        while p < PAGES
            invariant
                p <= PAGES,
                forall|q: u32| r@.contains(q) ==> map_has(*self, q) && q < p,
                forall|q: int| 0 <= q < p && self.0@[q] is Some ==> r@.contains(q as u32),
            decreases PAGES - p,
        {
            let ghost old_r = r@;
            if self.0[p].is_some() {
                r.push(p as u32);
                proof {
                    assert forall|q: u32| r@.contains(q) implies map_has(*self, q) && q < p
                        + 1 by {
                        if q != p as u32 {
                            assert(old_r.contains(q)) by {
                                let w = choose|w: int| 0 <= w < r@.len() && r@[w] == q;
                                assert(old_r[w] == q);
                            }
                        }
                    }
                    assert forall|q: int| 0 <= q < p + 1 && self.0@[q] is Some implies r@.contains(
                        q as u32,
                    ) by {
                        if q < p {
                            let w = choose|w: int| 0 <= w < old_r.len() && old_r[w] == q as u32;
                            assert(r@[w] == q as u32);
                        } else {
                            assert(r@[r@.len() - 1] == q as u32);
                        }
                    }
                }
            }
            p += 1;
        }
        r
    }
}

impl PageSet {
    /// An empty set.
    pub fn new() -> (r: PageSet)
        ensures
            set_wf(r),
            forall|q: u32| !set_has(r, q),
    {
        PageSet(PageMap::new())
    }

    /// Add a page.
    pub fn add(&mut self, page: u32)
        requires
            set_wf(*old(self)),
            page < PAGES,
        ensures
            set_wf(*final(self)),
            forall|q: u32| set_has(*final(self), q) <==> (set_has(*old(self), q) || q == page),
    {
        self.0.add(&page, ());
    }

    /// Remove a page.
    pub fn del(&mut self, page: &u32)
        requires
            set_wf(*old(self)),
            *page < PAGES,
        ensures
            set_wf(*final(self)),
            forall|q: u32| set_has(*final(self), q) <==> (set_has(*old(self), q) && q != *page),
    {
        self.0.del(page);
    }

    /// Whether the page is in the set.
    pub fn has(&self, page: &u32) -> (r: bool)
        requires
            set_wf(*self),
            *page < PAGES,
        ensures
            r == set_has(*self, *page),
    {
        self.0.has(page)
    }

    /// How many pages are in the set.
    pub fn len(&self) -> (r: u32)
        requires
            set_wf(*self),
        ensures
            r == count_from(self.0.0@, 0),
            r <= PAGES,
    {
        self.0.len()
    }

    /// How many pages are in both sets.
    pub fn intersect_count(&self, other: &PageSet) -> (r: u32)
        requires
            set_wf(*self),
            set_wf(*other),
        ensures
            r == inter_from(self.0.0@, other.0.0@, 0),
    {
        self.0.intersect_count(&other.0)
    }

    /// The pages in this set but not the other. (Set entries all hold
    /// the unit value, so the map difference's value comparison
    /// reduces to plain membership.)
    #[verifier::loop_isolation(false)]
    pub fn difference(&self, other: &PageSet) -> (r: PageSet)
        requires
            set_wf(*self),
            set_wf(*other),
        ensures
            set_wf(r),
            forall|q: u32| set_has(r, q) <==> (set_has(*self, q) && !set_has(*other, q)),
    {
        let mut new: PageMap<()> = PageMap::new();
        let mut p: usize = 0;
        while p < PAGES
            invariant
                map_wf(new),
                p <= PAGES,
                forall|q: int|
                    0 <= q < p ==> (new.0@[q] is Some <==> (self.0.0@[q] is Some
                        && other.0.0@[q] is None)),
                forall|q: int| p <= q < PAGES ==> new.0@[q] is None,
            decreases PAGES - p,
        {
            if self.0.0[p].is_some() && !other.0.0[p].is_some() {
                new.add(&(p as u32), ());
            }
            p += 1;
        }
        let r = PageSet(new);
        proof {
            assert forall|q: u32| set_has(r, q) <==> (set_has(*self, q) && !set_has(
                *other,
                q,
            )) by {}
        }
        r
    }

    /// The pages in the set, in increasing order.
    pub fn iter(&self) -> (r: Vec<u32>)
        requires
            set_wf(*self),
        ensures
            forall|q: u32| r@.contains(q) ==> set_has(*self, q),
            forall|q: u32| set_has(*self, q) ==> r@.contains(q),
            forall|q: u32| r@.contains(q) ==> q < PAGES,
    {
        let r = self.0.iter();
        proof {
            assert forall|q: u32| set_has(*self, q) implies r@.contains(q) by {
                assert(self.0.0@[q as int] is Some);
            }
        }
        r
    }
}

/// Whether `q` is a dependency of `p` within this update: both pages
/// occur in the update and a rule `q|p` exists.
pub open spec fn dep(update: Seq<u32>, rules: Seq<Rule>, q: u32, p: u32) -> bool {
    update.contains(q) && update.contains(p) && rules.contains((q, p))
}

/// Every page of an update and every rule endpoint is a valid page
/// number.
pub open spec fn pages_bounded(update: Seq<u32>, rules: Seq<Rule>) -> bool {
    &&& forall|i: int| 0 <= i < update.len() ==> (#[trigger] update[i]) < PAGES
    &&& forall|i: int|
        0 <= i < rules.len() ==> (#[trigger] rules[i]).0 < PAGES && rules[i].1 < PAGES
}

/// The per-page dependency table: for each page of the update, the
/// set of pages that must precede it.
#[verifier::loop_isolation(false)]
#[verifier::rlimit(60)]
pub fn dependency_map(update: &Vec<u32>, all_rules: &Vec<Rule>) -> (r: PageMap<PageSet>)
    requires
        pages_bounded(update@, all_rules@),
    ensures
        map_wf(r),
        forall|p: u32| p < PAGES ==> (map_has(r, p) <==> update@.contains(p)),
        forall|p: u32| p < PAGES && map_has(r, p) ==> set_wf(r.0@[p as int].unwrap()),
        forall|p: u32, q: u32|
            p < PAGES && q < PAGES && map_has(r, p) ==> (set_has(
                r.0@[p as int].unwrap(),
                q,
            ) <==> dep(update@, all_rules@, q, p)),
{
    let mut map: PageMap<PageSet> = PageMap::new();
    let mut i: usize = 0;
    while i < update.len()
        invariant
            i <= update@.len(),
            map_wf(map),
            forall|p: u32| p < PAGES ==> (map_has(map, p) <==> exists|m: int|
                0 <= m < i && update@[m] == p),
            forall|p: u32| p < PAGES && map_has(map, p) ==> set_wf(map.0@[p as int].unwrap()),
            forall|p: u32, q: u32|
                p < PAGES && q < PAGES && map_has(map, p) ==> (set_has(
                    map.0@[p as int].unwrap(),
                    q,
                ) <==> dep(update@, all_rules@, q, p)),
        decreases update@.len() - i,
    {
        let page = update[i];
        let mut deps = PageSet::new();
        let mut k: usize = 0;
        while k < all_rules.len()
            invariant
                k <= all_rules@.len(),
                set_wf(deps),
                page == update@[i as int],
                page < PAGES,
                forall|q: u32|
                    set_has(deps, q) <==> (q < PAGES && exists|m: int|
                        0 <= m < k && all_rules@[m] == (q, page) && update@.contains(q)),
            decreases all_rules@.len() - k,
        {
            let (pre, suc) = all_rules[k];
            if suc == page {
                let mut found = false;
                let mut w: usize = 0;
                while w < update.len()
                    invariant
                        w <= update@.len(),
                        found ==> update@.contains(pre),
                        !found ==> forall|m: int| 0 <= m < w ==> update@[m] != pre,
                    decreases update@.len() - w,
                {
                    if update[w] == pre {
                        found = true;
                        proof {
                            assert(update@[w as int] == pre);
                        }
                        break ;
                    }
                    w += 1;
                }
                if found {
                    deps.add(pre);
                }
            }
            k += 1;
        }
        proof {
            assert forall|q: u32| set_has(deps, q) <==> dep(
                update@,
                all_rules@,
                q,
                page,
            ) by {
                if set_has(deps, q) {
                    let m = choose|m: int|
                        0 <= m < all_rules@.len() && all_rules@[m] == (q, page)
                            && update@.contains(q);
                    assert(all_rules@.contains((q, page)));
                    assert(update@.contains(page));
                }
                if dep(update@, all_rules@, q, page) {
                    let m = choose|m: int|
                        0 <= m < all_rules@.len() && all_rules@[m] == (q, page);
                    assert(q < PAGES) by {
                        assert(all_rules@[m].0 < PAGES);
                    }
                }
            }
        }
        let ghost pre_map = map;
        let ghost deps_snap = deps;
        proof {
            assert(set_wf(deps_snap));
        }
        map.add(&page, deps);
        proof {
            assert(map.0@ == pre_map.0@.update(page as int, Some(deps_snap)));
            assert(map.0@[page as int] == Some(deps_snap));
            assert forall|p: u32| p < PAGES implies (map_has(map, p) <==> exists|m: int|
                0 <= m < i + 1 && update@[m] == p) by {
                if p == page {
                    assert(map_has(map, p));
                    assert(update@[i as int] == p);
                    assert(exists|m: int| 0 <= m < i + 1 && update@[m] == p);
                } else {
                    assert(map.0@[p as int] == pre_map.0@[p as int]);
                    assert(map_has(map, p) == map_has(pre_map, p));
                    if exists|m: int| 0 <= m < i + 1 && update@[m] == p {
                        let m = choose|m: int| 0 <= m < i + 1 && update@[m] == p;
                        assert(m != i);
                        assert(0 <= m < i && update@[m] == p);
                        assert(map_has(pre_map, p));
                    }
                }
            }
            assert forall|p: u32| p < PAGES && map_has(map, p) implies set_wf(
                map.0@[p as int].unwrap(),
            ) by {
                if p == page {
                    assert(map.0@[p as int] == Some(deps_snap));
                    assert(map.0@[p as int].unwrap() == deps_snap);
                    assert(set_wf(deps_snap));
                } else {
                    assert(map.0@[p as int] == pre_map.0@[p as int]);
                    assert(map_has(pre_map, p));
                }
            }
            assert forall|p: u32, q: u32|
                p < PAGES && q < PAGES && map_has(map, p) implies (set_has(
                map.0@[p as int].unwrap(),
                q,
            ) <==> dep(update@, all_rules@, q, p)) by {
                if p != page {
                    assert(map.0@[p as int] == pre_map.0@[p as int]);
                }
            }
        }
        i += 1;
    }
    proof {
        assert forall|p: u32| p < PAGES implies (map_has(map, p) <==> update@.contains(p)) by {}
    }
    map
}

/// Whether an update lists every page after all of its in-update
/// dependencies.
pub open spec fn in_order_spec(update: Seq<u32>, rules: Seq<Rule>) -> bool {
    forall|i: int, q: u32|
        0 <= i < update.len() && #[trigger] dep(update, rules, q, update[i]) ==> exists|j: int|
            0 <= j < i && update[j] == q
}

/// Check an update against the rules.
#[verifier::loop_isolation(false)]
pub fn is_in_order(update: &Vec<u32>, all_rules: &Vec<Rule>) -> (r: bool)
    requires
        pages_bounded(update@, all_rules@),
    ensures
        r == in_order_spec(update@, all_rules@),
{
    let rules = dependency_map(update, all_rules);
    let mut preceding = PageSet::new();
    let mut i: usize = 0;
    while i < update.len()
        invariant
            i <= update@.len(),
            set_wf(preceding),
            forall|q: u32| set_has(preceding, q) <==> (q < PAGES && exists|j: int|
                0 <= j < i && update@[j] == q),
            forall|ii: int, q: u32|
                0 <= ii < i && #[trigger] dep(update@, all_rules@, q, update@[ii]) ==> exists|j: int|
                    0 <= j < ii && update@[j] == q,
        decreases update@.len() - i,
    {
        let page = update[i];
        let must_precede = match rules.get(&page) {
            Some(s) => s,
            None => {
                proof {
                    assert(update@[i as int] == page);
                    assert(update@.contains(page));
                    assert(map_has(rules, page));
                    assert(false);
                }
                return false;
            },
        };
        proof {
            assert(update@[i as int] == page);
            assert(update@.contains(page));
            assert(map_has(rules, page));
            assert(rules.0@[page as int].unwrap() == *must_precede);
            assert(set_wf(*must_precede));
        }
        let inter = must_precede.intersect_count(&preceding);
        let need = must_precede.len();
        proof {
            lemma_inter_subset(must_precede.0.0@, preceding.0.0@, 0);
        }
        if inter != need {
            proof {
                let bad = choose|p: int|
                    0 <= p < PAGES && must_precede.0.0@[p] is Some
                        && preceding.0.0@[p] is None;
                let q = bad as u32;
                assert(set_has(*must_precede, q));
                assert(dep(update@, all_rules@, q, page));
                assert(update@[i as int] == page);
                assert(!in_order_spec(update@, all_rules@)) by {
                    if in_order_spec(update@, all_rules@) {
                        assert(exists|j: int| 0 <= j < i && update@[j] == q);
                        assert(set_has(preceding, q));
                    }
                }
            }
            return false;
        }
        proof {
            assert forall|q: u32| dep(update@, all_rules@, q, page) implies exists|j: int|
                0 <= j < i && update@[j] == q by {
                assert(set_has(*must_precede, q));
                assert(must_precede.0.0@[q as int] is Some);
                assert(preceding.0.0@[q as int] is Some);
                assert(set_has(preceding, q));
            }
            assert(update@[i as int] == page);
        }
        preceding.add(page);
        i += 1;
    }
    true
}

/// The middle page of an update.
pub fn midpoint(update: &Vec<u32>) -> (r: u32)
    requires
        update@.len() > 0,
    ensures
        r == update@[update@.len() as int / 2],
{
    update[update.len() / 2]
}

/// A linear order of the update's pages that satisfies every
/// applicable rule; when one exists, `reorder` finds one.
pub open spec fn valid_order(perm: Seq<u32>, update: Seq<u32>, rules: Seq<Rule>) -> bool {
    &&& forall|i: int, j: int| 0 <= i < j < perm.len() ==> perm[i] != perm[j]
    &&& forall|q: u32| perm.contains(q) <==> update.contains(q)
    &&& forall|i: int, q: u32|
        0 <= i < perm.len() && #[trigger] dep(update, rules, q, perm[i]) ==> exists|j: int|
            0 <= j < i && perm[j] == q
}

pub open spec fn orderable(update: Seq<u32>, rules: Seq<Rule>) -> bool {
    exists|perm: Seq<u32>| valid_order(perm, update, rules)
}

/// The least index of `perm` whose page is not yet in `added`.
proof fn first_missing(perm: Seq<u32>, added: PageSet, lo: int) -> (r: int)
    requires
        set_wf(added),
        0 <= lo <= perm.len(),
        exists|i: int| lo <= i < perm.len() && !set_has(added, #[trigger] perm[i]),
        forall|i: int| 0 <= i < perm.len() ==> (#[trigger] perm[i]) < PAGES,
    ensures
        lo <= r < perm.len(),
        !set_has(added, perm[r]),
        forall|i: int| lo <= i < r ==> set_has(added, #[trigger] perm[i]),
    decreases perm.len() - lo,
{
    if !set_has(added, perm[lo]) {
        lo
    } else {
        first_missing(perm, added, lo + 1)
    }
}

/// Reorder an update so that every page follows its in-update
/// dependencies. The result is duplicate-free and drawn from the
/// update; when the rules admit a full ordering of the update at all,
/// every page of the update appears.
#[verifier::loop_isolation(false)]
#[verifier::rlimit(100)]
#[verifier::spinoff_prover]
pub fn reorder(update: &Vec<u32>, all_rules: &Vec<Rule>) -> (r: Vec<u32>)
    requires
        pages_bounded(update@, all_rules@),
    ensures
        forall|i: int, j: int| 0 <= i < j < r@.len() ==> r@[i] != r@[j],
        forall|q: u32| r@.contains(q) ==> update@.contains(q),
        forall|i: int, q: u32|
            0 <= i < r@.len() && #[trigger] dep(update@, all_rules@, q, r@[i]) ==> exists|j: int|
                0 <= j < i && r@[j] == q,
        orderable(update@, all_rules@) ==> forall|q: u32|
            update@.contains(q) ==> r@.contains(q),
{
    let deps = dependency_map(update, all_rules);
    let mut added = PageSet::new();
    let mut in_order: Vec<u32> = Vec::new();
    let mut pass: usize = 0;
    while pass < update.len()
        invariant
            pass <= update@.len(),
            set_wf(added),
            forall|q: u32| set_has(added, q) <==> in_order@.contains(q),
            forall|i: int, j: int| 0 <= i < j < in_order@.len() ==> in_order@[i] != in_order@[j],
            forall|q: u32| in_order@.contains(q) ==> update@.contains(q),
            forall|i: int, q: u32|
                0 <= i < in_order@.len() && #[trigger] dep(update@, all_rules@, q, in_order@[i])
                    ==> exists|j: int| 0 <= j < i && in_order@[j] == q,
            orderable(update@, all_rules@) ==> (in_order@.len() >= pass || forall|q: u32|
                update@.contains(q) ==> in_order@.contains(q)),
        decreases update@.len() - pass,
    {
        let ghost start_len = in_order@.len();
        let ghost start_list = in_order@;
        let mut idx: usize = 0;
        while idx < update.len()
            invariant
                idx <= update@.len(),
                set_wf(added),
                in_order@.len() >= start_len,
                start_len == start_list.len(),
                start_list.is_prefix_of(in_order@),
                forall|q: u32| set_has(added, q) <==> in_order@.contains(q),
                forall|i: int, j: int|
                    0 <= i < j < in_order@.len() ==> in_order@[i] != in_order@[j],
                forall|q: u32| in_order@.contains(q) ==> update@.contains(q),
                forall|i: int, q: u32|
                    0 <= i < in_order@.len() && #[trigger] dep(
                        update@,
                        all_rules@,
                        q,
                        in_order@[i],
                    ) ==> exists|j: int| 0 <= j < i && in_order@[j] == q,
                in_order@.len() == start_len ==> forall|m: int|
                    0 <= m < idx ==> (in_order@.contains(#[trigger] update@[m]) || exists|q: u32|
                        dep(update@, all_rules@, q, update@[m]) && !in_order@.contains(q)),
            decreases update@.len() - idx,
        {
            let page = update[idx];
            proof {
                assert(update@[idx as int] == page);
                assert(update@.contains(page));
                assert(map_has(deps, page));
            }
            if !added.has(&page) {
                let must = match deps.get(&page) {
                    Some(s) => s,
                    None => {
                        proof {
                            assert(false);
                        }
                        return in_order;
                    },
                };
                proof {
                    assert(deps.0@[page as int].unwrap() == *must);
                    assert(set_wf(*must));
                }
                let inter = must.intersect_count(&added);
                let need = must.len();
                proof {
                    lemma_inter_subset(must.0.0@, added.0.0@, 0);
                }
                if inter == need {
                    proof {
                        assert forall|q: u32| set_has(*must, q) implies in_order@.contains(
                            q,
                        ) by {
                            assert(must.0.0@[q as int] is Some);
                            assert(added.0.0@[q as int] is Some);
                            assert(set_has(added, q));
                        }
                    }
                    let ghost old_list = in_order@;
                    in_order.push(page);
                    added.add(page);
                    proof {
                        assert(in_order@ =~= old_list.push(page));
                        assert forall|q: u32| set_has(added, q) <==> in_order@.contains(q) by {
                            if in_order@.contains(q) {
                                let w = choose|w: int|
                                    0 <= w < in_order@.len() && in_order@[w] == q;
                                if w < old_list.len() {
                                    assert(old_list[w] == q);
                                    assert(old_list.contains(q));
                                }
                            }
                            if set_has(added, q) && q != page {
                                assert(old_list.contains(q));
                                let w = choose|w: int| 0 <= w < old_list.len() && old_list[w] == q;
                                assert(in_order@[w] == q);
                            }
                            if q == page {
                                assert(in_order@[in_order@.len() - 1] == q);
                            }
                        }
                        assert forall|i: int, q: u32|
                            0 <= i < in_order@.len() && #[trigger] dep(
                                update@,
                                all_rules@,
                                q,
                                in_order@[i],
                            ) implies exists|j: int| 0 <= j < i && in_order@[j] == q by {
                            if i < old_list.len() {
                                assert(old_list[i] == in_order@[i]);
                                assert(dep(update@, all_rules@, q, old_list[i]));
                                let j = choose|j: int| 0 <= j < i && old_list[j] == q;
                                assert(in_order@[j] == q);
                            } else {
                                // the new page: its dependencies were already
                                // listed before the push
                                assert(in_order@[i] == page);
                                assert(q < PAGES) by {
                                    let w = choose|w: int|
                                        0 <= w < all_rules@.len() && all_rules@[w] == (q, page);
                                    assert(all_rules@[w].0 < PAGES);
                                }
                                assert(set_has(*must, q));
                                assert(old_list.contains(q));
                                let j = choose|j: int| 0 <= j < old_list.len() && old_list[j] == q;
                                assert(in_order@[j] == q);
                            }
                        }
                        assert forall|i: int, j: int|
                            0 <= i < j < in_order@.len() implies in_order@[i] != in_order@[j] by {
                            if j == in_order@.len() - 1 {
                                assert(in_order@[j] == page);
                                assert(old_list[i] == in_order@[i]);
                                if in_order@[i] == page {
                                    assert(old_list.contains(page));
                                }
                            }
                        }
                    }
                } else {
                    proof {
                        let bad = choose|p: int|
                            0 <= p < PAGES && must.0.0@[p] is Some && added.0.0@[p] is None;
                        let q = bad as u32;
                        assert(set_has(*must, q));
                        assert(dep(update@, all_rules@, q, page));
                        assert(!set_has(added, q));
                        assert(!in_order@.contains(q));
                        assert(dep(update@, all_rules@, q, update@[idx as int])
                            && !in_order@.contains(q));
                    }
                }
            } else {
                proof {
                    assert(set_has(added, page));
                    assert(in_order@.contains(update@[idx as int]));
                }
            }
            idx += 1;
        }
        proof {
            assert forall|q: u32| start_list.contains(q) implies in_order@.contains(q) by {
                let w = choose|w: int| 0 <= w < start_list.len() && start_list[w] == q;
                assert(in_order@[w] == q);
            }
            if orderable(update@, all_rules@) && in_order@.len() == start_len {
                // a full ordering exists, so some page was ready; the scan
                // would have added it
                if exists|q: u32| update@.contains(q) && !in_order@.contains(q) {
                    let perm = choose|perm: Seq<u32>| valid_order(perm, update@, all_rules@);
                    let missing = choose|q: u32|
                        update@.contains(q) && !in_order@.contains(q);
                    assert(perm.contains(missing));
                    assert(exists|i: int|
                        0 <= i < perm.len() && !set_has(added, #[trigger] perm[i])) by {
                        let w = choose|w: int| 0 <= w < perm.len() && perm[w] == missing;
                        assert(!set_has(added, perm[w]));
                    }
                    assert forall|i: int| 0 <= i < perm.len() implies (#[trigger] perm[i])
                        < PAGES by {
                        assert(update@.contains(perm[i]));
                        let w = choose|w: int| 0 <= w < update@.len() && update@[w] == perm[i];
                        assert(update@[w] < PAGES);
                    }
                    let jm = first_missing(perm, added, 0);
                    let p = perm[jm];
                    // p is an update page, not yet added, with all its
                    // dependencies added
                    assert(update@.contains(p));
                    let widx = choose|w: int| 0 <= w < update@.len() && update@[w] == p;
                    assert forall|q: u32| dep(update@, all_rules@, q, p) implies in_order@.contains(
                        q,
                    ) by {
                        let j = choose|j: int| 0 <= j < jm && perm[j] == q;
                        assert(set_has(added, perm[j]));
                    }
                    // but then the inner scan saw `update[widx]` and either
                    // added it or found it blocked, both contradictions
                    assert(in_order@.contains(update@[widx]) || exists|q: u32|
                        dep(update@, all_rules@, q, update@[widx]) && !in_order@.contains(q));
                    assert(false);
                }
            }
        }
        pass += 1;
    }
    proof {
        if orderable(update@, all_rules@) {
            if exists|q: u32| update@.contains(q) && !in_order@.contains(q) {
                // every pass added a page, so the list holds as many
                // (distinct, update-drawn) pages as the update has slots;
                // yet some update page is missing, so some page of the
                // update appears twice in the list, contradicting
                // distinctness
                assert(in_order@.len() >= update@.len());
                let missing = choose|q: u32| update@.contains(q) && !in_order@.contains(q);
                lemma_distinct_subset_len(in_order@, update@, missing);
                assert(false);
            }
        }
    }
    in_order
}

/// Whether a rule `x|y` starts at the very front of `s`: a digit
/// run, a `'|'`, and another digit run.
pub open spec fn rule_head(s: Seq<u8>) -> bool {
    let d = digit_run(s);
    d >= 1 && d < s.len() && s[d] == 124 && digit_run(s.skip(d + 1)) >= 1
}

/// Index of the first rule in `s`, or `-1` when there is none.
pub open spec fn first_rule(s: Seq<u8>) -> int
    decreases s.len(),
{
    if s.len() == 0 {
        -1
    } else if rule_head(s) {
        0
    } else {
        let r = first_rule(s.skip(1));
        if r < 0 {
            -1
        } else {
            r + 1
        }
    }
}

proof fn lemma_first_rule_bounds(s: Seq<u8>)
    ensures
        first_rule(s) < 0 ==> forall|i: int|
            0 <= i < s.len() ==> !rule_head(#[trigger] s.skip(i)),
        first_rule(s) >= 0 ==> {
            &&& first_rule(s) < s.len()
            &&& rule_head(s.skip(first_rule(s)))
            &&& forall|i: int| 0 <= i < first_rule(s) ==> !rule_head(#[trigger] s.skip(i))
        },
    decreases s.len(),
{
    assert(s.skip(0) =~= s);
    if s.len() > 0 && !rule_head(s) {
        lemma_first_rule_bounds(s.skip(1));
        assert forall|i: int| 1 <= i < s.len() implies #[trigger] s.skip(i) =~= s.skip(1).skip(
            i - 1,
        ) by {}
        if first_rule(s) >= 0 {
            assert(s.skip(1).skip(first_rule(s) - 1) =~= s.skip(first_rule(s)));
        }
    }
}

proof fn lemma_first_rule_at(s: Seq<u8>, k: int)
    requires
        0 <= k < s.len(),
        rule_head(s.skip(k)),
        forall|i: int| 0 <= i < k ==> !rule_head(#[trigger] s.skip(i)),
    ensures
        first_rule(s) == k,
{
    lemma_first_rule_bounds(s);
    if first_rule(s) < 0 {
        assert(!rule_head(s.skip(k)));
    } else if first_rule(s) < k {
        assert(!rule_head(s.skip(first_rule(s))));
    } else if first_rule(s) > k {
        assert(!rule_head(s.skip(k)));
    }
}

/// The rule a line carries, if a rule pattern occurs in it and both
/// numbers fit.
pub open spec fn rule_of(l: Seq<u8>) -> Option<Rule> {
    let i = first_rule(l);
    if i < 0 {
        None
    } else {
        let t = l.skip(i);
        let d1 = digit_run(t);
        let x = digits_val(t.take(d1));
        let t2 = t.skip(d1 + 1);
        let d2 = digit_run(t2);
        let y = digits_val(t2.take(d2));
        if x <= u32::MAX && y <= u32::MAX {
            Some(((x as u32), (y as u32)))
        } else {
            None
        }
    }
}

/// The numbers named on an update line: every maximal digit run, in
/// order; `None` when one of them does not fit.
pub open spec fn nums_in(s: Seq<u8>) -> Option<Seq<u32>>
    decreases s.len(),
    via nums_in_decreases
{
    if s.len() == 0 {
        Some(Seq::empty())
    } else if !is_digit(s[0]) {
        nums_in(s.skip(1))
    } else {
        let d = digit_run(s);
        if digits_val(s.take(d)) <= u32::MAX {
            match nums_in(s.skip(d)) {
                Some(rest) => Some(seq![(digits_val(s.take(d)) as u32)] + rest),
                None => None,
            }
        } else {
            None
        }
    }
}

#[via_fn]
proof fn nums_in_decreases(s: Seq<u8>) {
    lemma_digit_run_bounds(s);
}

/// The rules and updates of the whole input, in file order; empty
/// lines are skipped, a line holding a rule pattern is a rule, and
/// any other line is an update.
pub open spec fn collect_input(ls: Seq<Seq<u8>>) -> Option<(Seq<Rule>, Seq<Seq<u32>>)>
    decreases ls.len(),
{
    if ls.len() == 0 {
        Some((Seq::empty(), Seq::empty()))
    } else {
        let rest = collect_input(ls.skip(1));
        if ls[0].len() == 0 {
            rest
        } else if first_rule(ls[0]) >= 0 {
            match (rule_of(ls[0]), rest) {
                (Some(r), Some(p)) => Some((seq![r] + p.0, p.1)),
                _ => None,
            }
        } else {
            match (nums_in(ls[0]), rest) {
                (Some(u), Some(p)) => Some((p.0, seq![u] + p.1)),
                _ => None,
            }
        }
    }
}

proof fn lemma_collect_none(ls: Seq<Seq<u8>>, j: int, k: int)
    requires
        0 <= j <= k <= ls.len(),
        collect_input(ls.skip(k)) is None,
    ensures
        collect_input(ls.skip(j)) is None,
    decreases k - j,
{
    if j < k {
        lemma_collect_none(ls, j + 1, k);
        assert(ls.skip(j)[0] == ls[j]);
        assert(ls.skip(j).skip(1) =~= ls.skip(j + 1));
    }
}

/// The parsed input: the rules and the update lists.
pub struct Input {
    pub rules: Vec<Rule>,
    pub updates: Vec<Vec<u32>>,
}

/// Length of the digit run at `s[i..]`.
#[verifier::loop_isolation(false)]
fn run_len(s: &[u8], i: usize) -> (r: usize)
    requires
        i <= s@.len(),
    ensures
        r == digit_run(s@.skip(i as int)),
        i + r <= s@.len(),
{
    let ghost t = s@.skip(i as int);
    proof {
        lemma_digit_run_bounds(t);
    }
    let mut j: usize = 0;
    while j < s.len() - i && s[i + j] >= 48 && s[i + j] <= 57
        invariant
            i + j <= s@.len(),
            j <= digit_run(t),
        decreases s@.len() - i - j,
    {
        proof {
            assert(t[j as int] == s@[i + j]);
            if j + 1 > digit_run(t) {
                assert(!is_digit(t[digit_run(t)]));
            }
        }
        j += 1;
    }
    proof {
        if j < digit_run(t) {
            assert(is_digit(t[j as int]));
            assert(s@[i + j] == t[j as int]);
            assert(false);
        }
    }
    j
}

/// A digit run parses to its value.
proof fn lemma_run_str_num(t: Seq<u8>, d: int)
    requires
        1 <= d <= digit_run(t),
        d <= t.len(),
    ensures
        str_num(t.take(d)) == Some(digits_val(t.take(d))),
{
    lemma_digit_run_bounds(t);
    let run = t.take(d);
    assert(run.len() == d);
    assert forall|m: int| 0 <= m < run.len() implies is_digit(#[trigger] run[m]) by {
        assert(run[m] == t[m]);
    }
    assert(run[0] != 43);
}

/// Parse one update line.
#[verifier::loop_isolation(false)]
#[verifier::rlimit(60)]
fn parse_update(l: &[u8]) -> (r: Result<Vec<u32>, InputError>)
    ensures
        match r {
            Ok(u) => nums_in(l@) == Some(u@),
            Err(e) => nums_in(l@) is None && e is InvalidInput,
        },
{
    let n = l.len();
    let mut cur: Vec<u32> = Vec::new();
    let mut i: usize = 0;
    proof {
        assert(l@.skip(0) =~= l@);
        assert(cur@ + nums_in(l@).unwrap() =~= nums_in(l@).unwrap());
    }
    while i < n
        invariant
            i <= n,
            match nums_in(l@.skip(i as int)) {
                Some(rest) => nums_in(l@) == Some(cur@ + rest),
                None => nums_in(l@) is None,
            },
        decreases n - i,
    {
        let ghost t = l@.skip(i as int);
        let c = l[i];
        proof {
            assert(t[0] == l@[i as int]);
        }
        if !(48 <= c && c <= 57) {
            proof {
                assert(t.skip(1) =~= l@.skip(i as int + 1));
            }
            i += 1;
        } else {
            let d = run_len(l, i);
            proof {
                lemma_digit_run_bounds(t);
                assert(d >= 1);
                lemma_run_str_num(t, d as int);
                assert(l@.subrange(i as int, i as int + d as int) =~= t.take(d as int));
                assert(t.skip(d as int) =~= l@.skip(i as int + d as int));
            }
            match parse_u32_bytes(&l[i..i + d]) {
                Ok(v) => {
                    let ghost old_cur = cur@;
                    cur.push(v);
                    proof {
                        assert(cur@ =~= old_cur.push(v));
                        let rest2 = nums_in(l@.skip(i as int + d as int));
                        if rest2 is Some {
                            assert(old_cur + (seq![v] + rest2.unwrap()) =~= (old_cur
                                + seq![v]) + rest2.unwrap());
                            assert(cur@ =~= old_cur + seq![v]);
                        }
                    }
                    i += d;
                },
                Err(e) => {
                    return Err(e);
                },
            }
        }
    }
    proof {
        assert(nums_in(l@.skip(n as int)) == Some(Seq::<u32>::empty()));
        assert(cur@ + Seq::<u32>::empty() =~= cur@);
    }
    Ok(cur)
}

/// Find the first rule pattern in a line, if any.
#[verifier::loop_isolation(false)]
fn find_rule(l: &[u8]) -> (r: Option<usize>)
    ensures
        match r {
            Some(i) => first_rule(l@) == i as int,
            None => first_rule(l@) < 0,
        },
{
    let n = l.len();
    let mut i: usize = 0;
    while i < n
        invariant
            i <= n,
            forall|m: int| 0 <= m < i ==> !rule_head(#[trigger] l@.skip(m)),
        decreases n - i,
    {
        let ghost t = l@.skip(i as int);
        let d = run_len(l, i);
        if d >= 1 && i + d < n && l[i + d] == 124 {
            let d2 = run_len(l, i + d + 1);
            proof {
                assert(t[d as int] == l@[i as int + d as int]);
                assert(t.skip(d as int + 1) =~= l@.skip(i as int + d as int + 1));
            }
            if d2 >= 1 {
                proof {
                    assert(rule_head(t));
                    lemma_first_rule_at(l@, i as int);
                }
                return Some(i);
            } else {
                proof {
                    assert(!rule_head(t));
                }
            }
        } else {
            proof {
                if rule_head(t) {
                    assert(digit_run(t) >= 1 && digit_run(t) < t.len());
                    assert(t[digit_run(t)] == l@[i as int + digit_run(t)]);
                }
            }
        }
        i += 1;
    }
    proof {
        lemma_first_rule_bounds(l@);
        if first_rule(l@) >= 0 {
            assert(!rule_head(l@.skip(first_rule(l@))));
        }
    }
    None
}

impl Input {
    /// Read the rules and updates out of the raw input.
    #[verifier::loop_isolation(false)]
    #[verifier::rlimit(60)]
    pub fn read(input: &[u8]) -> (r: Result<Input, InputError>)
        ensures
            match r {
                Ok(inp) => collect_input(split_lines(input@)) == Some(
                    (inp.rules@, inp.updates@.map_values(|u: Vec<u32>| u@)),
                ),
                Err(e) => collect_input(split_lines(input@)) is None && e is InvalidInput,
            },
    {
        let ls = lines(input);
        let ghost lss = ls@.map_values(|l: Vec<u8>| l@);
        let mut rules: Vec<Rule> = Vec::new();
        let mut updates: Vec<Vec<u32>> = Vec::new();
        let mut idx: usize = ls.len();
        // walk backwards so the recursive description unfolds one line
        // at a time
        proof {
            assert(lss.skip(idx as int) =~= Seq::<Seq<u8>>::empty());
            assert(collect_input(lss.skip(idx as int)) == Some(
                (rules@, updates@.map_values(|u: Vec<u32>| u@)),
            ));
        }
        while idx > 0
            invariant
                idx <= ls@.len(),
                collect_input(lss.skip(idx as int)) == Some(
                    (rules@, updates@.map_values(|u: Vec<u32>| u@)),
                ),
            decreases idx,
        {
            idx -= 1;
            let line = &ls[idx];
            proof {
                assert(lss.skip(idx as int)[0] == lss[idx as int]);
                assert(lss[idx as int] == ls@[idx as int]@);
                assert(lss.skip(idx as int).skip(1) =~= lss.skip(idx as int + 1));
            }
            if line.len() == 0 {
                continue ;
            }
            match find_rule(line.as_slice()) {
                Some(i) => {
                    proof {
                        lemma_first_rule_bounds(line@);
                    }
                    let d1 = run_len(line.as_slice(), i);
                    proof {
                        lemma_digit_run_bounds(line@.skip(i as int));
                        lemma_digit_run_bounds(
                            line@.skip(i as int).skip(digit_run(line@.skip(i as int)) + 1),
                        );
                        assert(line@.skip(i as int).skip(d1 as int + 1) =~= line@.skip(
                            i as int + d1 as int + 1,
                        ));
                        lemma_run_str_num(line@.skip(i as int), d1 as int);
                        assert(line@.subrange(i as int, i as int + d1 as int) =~= line@.skip(
                            i as int,
                        ).take(d1 as int));
                    }
                    let x = match parse_u32_bytes(&line.as_slice()[i..i + d1]) {
                        Ok(v) => v,
                        Err(e) => {
                            proof {
                                assert(collect_input(lss.skip(idx as int)) is None);
                                lemma_collect_none(lss, 0, idx as int);
                                assert(lss.skip(0) =~= lss);
                            }
                            return Err(e);
                        },
                    };
                    let d2 = run_len(line.as_slice(), i + d1 + 1);
                    proof {
                        lemma_run_str_num(line@.skip(i as int + d1 as int + 1), d2 as int);
                        assert(line@.subrange(
                            i as int + d1 as int + 1,
                            i as int + d1 as int + 1 + d2 as int,
                        ) =~= line@.skip(i as int + d1 as int + 1).take(d2 as int));
                    }
                    let y = match parse_u32_bytes(&line.as_slice()[i + d1 + 1..i + d1 + 1 + d2]) {
                        Ok(v) => v,
                        Err(e) => {
                            proof {
                                assert(collect_input(lss.skip(idx as int)) is None);
                                lemma_collect_none(lss, 0, idx as int);
                                assert(lss.skip(0) =~= lss);
                            }
                            return Err(e);
                        },
                    };
                    let ghost old_rules = rules@;
                    rules.insert(0, (x, y));
                    proof {
                        assert(rules@ =~= seq![(x, y)] + old_rules);
                    }
                },
                None => {
                    match parse_update(line.as_slice()) {
                        Ok(u) => {
                            let ghost old_updates = updates@.map_values(|u2: Vec<u32>| u2@);
                            let ghost uv = u@;
                            updates.insert(0, u);
                            proof {
                                assert(updates@.map_values(|u2: Vec<u32>| u2@) =~= seq![uv]
                                    + old_updates);
                            }
                        },
                        Err(e) => {
                            proof {
                                assert(collect_input(lss.skip(idx as int)) is None);
                                lemma_collect_none(lss, 0, idx as int);
                                assert(lss.skip(0) =~= lss);
                            }
                            return Err(e);
                        },
                    }
                },
            }
        }
        proof {
            assert(lss.skip(0) =~= lss);
        }
        Ok(Input { rules, updates })
    }
}

/// Part one's sum: the middle pages of the updates that are already
/// in order.
pub open spec fn p1_sum(updates: Seq<Seq<u32>>, rules: Seq<Rule>) -> int
    decreases updates.len(),
{
    if updates.len() == 0 {
        0
    } else {
        (if in_order_spec(updates[0], rules) {
            updates[0][updates[0].len() as int / 2] as int
        } else {
            0int
        }) + p1_sum(updates.skip(1), rules)
    }
}

/// Every update is non-empty with its pages bounded, as every rule
/// endpoint must be too.
pub open spec fn input_ok(updates: Seq<Seq<u32>>, rules: Seq<Rule>) -> bool {
    &&& forall|i: int|
        0 <= i < updates.len() ==> (#[trigger] updates[i]).len() > 0 && pages_bounded(
            updates[i],
            rules,
        )
    &&& forall|i: int| 0 <= i < rules.len() ==> (#[trigger] rules[i]).0 < PAGES && rules[i].1 < PAGES
}

proof fn lemma_p1_sum_bound(updates: Seq<Seq<u32>>, rules: Seq<Rule>)
    requires
        input_ok(updates, rules),
    ensures
        0 <= p1_sum(updates, rules) < (updates.len() + 1) * 100,
    decreases updates.len(),
{
    if updates.len() != 0 {
        assert(input_ok(updates.skip(1), rules)) by {
            assert(forall|i: int|
                0 <= i < updates.skip(1).len() ==> #[trigger] updates.skip(1)[i] == updates[i
                    + 1]);
        }
        lemma_p1_sum_bound(updates.skip(1), rules);
        if in_order_spec(updates[0], rules) {
            assert(updates[0][updates[0].len() as int / 2] < PAGES);
        }
        assert((updates.len() + 1) * 100 == updates.len() * 100 + 100) by (nonlinear_arith);
        assert((updates.skip(1).len() + 1) * 100 == updates.skip(1).len() * 100 + 100)
            by (nonlinear_arith);
    }
}

pub struct P1;

impl P1 {
    /// Sum the middle pages of the in-order updates.
    #[verifier::loop_isolation(false)]
    pub fn solve(input: &Input) -> (r: Result<u32, Error>)
        requires
            input_ok(input.updates@.map_values(|u: Vec<u32>| u@), input.rules@),
            input.updates@.len() <= 1000000,
        ensures
            r == Ok::<u32, Error>(
                p1_sum(input.updates@.map_values(|u: Vec<u32>| u@), input.rules@) as u32,
            ),
    {
        let ghost us = input.updates@.map_values(|u: Vec<u32>| u@);
        let mut sum: u32 = 0;
        let mut i: usize = 0;
        proof {
            assert(us.skip(0) =~= us);
            lemma_p1_sum_bound(us, input.rules@);
        }
        while i < input.updates.len()
            invariant
                i <= us.len(),
                sum + p1_sum(us.skip(i as int), input.rules@) == p1_sum(us, input.rules@),
                sum <= 100 * i,
            decreases us.len() - i,
        {
            proof {
                assert(us.skip(i as int)[0] == us[i as int]);
                assert(us.skip(i as int).skip(1) =~= us.skip(i as int + 1));
                assert(input_ok(us.skip(i as int + 1), input.rules@)) by {
                    assert(forall|m: int|
                        0 <= m < us.skip(i as int + 1).len() ==> #[trigger] us.skip(
                            i as int + 1,
                        )[m] == us[m + i + 1]);
                }
                lemma_p1_sum_bound(us.skip(i as int + 1), input.rules@);
            }
            let update = &input.updates[i];
            if is_in_order(update, &input.rules) {
                let m = midpoint(update);
                proof {
                    assert(us[i as int][us[i as int].len() as int / 2] < PAGES);
                }
                sum = sum + m;
            }
            i += 1;
        }
        Ok(sum)
    }
}

/// What a run of part two returns: for every update that was out of
/// order, a reordering with `reorder`'s guarantees, whose middle
/// pages sum to the answer.
pub open spec fn p2_sum(updates: Seq<Seq<u32>>, fixed: Seq<Seq<u32>>, rules: Seq<Rule>) -> int
    decreases updates.len(),
{
    if updates.len() == 0 || fixed.len() == 0 {
        0
    } else {
        (if !in_order_spec(updates[0], rules) {
            fixed[0][fixed[0].len() as int / 2] as int
        } else {
            0int
        }) + p2_sum(updates.skip(1), fixed.skip(1), rules)
    }
}

/// The reordering guarantees, per update.
pub open spec fn fixed_ok(update: Seq<u32>, fixed: Seq<u32>, rules: Seq<Rule>) -> bool {
    &&& forall|i: int, j: int| 0 <= i < j < fixed.len() ==> fixed[i] != fixed[j]
    &&& forall|q: u32| fixed.contains(q) ==> update.contains(q)
    &&& forall|i: int, q: u32|
        0 <= i < fixed.len() && #[trigger] dep(update, rules, q, fixed[i]) ==> exists|j: int|
            0 <= j < i && fixed[j] == q
    &&& forall|q: u32| update.contains(q) ==> fixed.contains(q)
}

pub struct P2;

impl P2 {
    /// Reorder the out-of-order updates and sum their middle pages.
    #[verifier::loop_isolation(false)]
    pub fn solve(input: &Input) -> (r: Result<u32, Error>)
        requires
            input_ok(input.updates@.map_values(|u: Vec<u32>| u@), input.rules@),
            input.updates@.len() <= 1000000,
            forall|i: int|
                0 <= i < input.updates@.len() ==> orderable(
                    (#[trigger] input.updates@[i])@,
                    input.rules@,
                ),
        ensures
            match r {
                Ok(total) => exists|fixed: Seq<Seq<u32>>|
                    #![trigger fixed.len()]
                    {
                        let us = input.updates@.map_values(|u: Vec<u32>| u@);
                        &&& fixed.len() == us.len()
                        &&& forall|i: int|
                            0 <= i < us.len() && !in_order_spec(#[trigger] us[i], input.rules@)
                                ==> fixed_ok(us[i], fixed[i], input.rules@)
                        &&& total == p2_sum(us, fixed, input.rules@)
                    },
                Err(_) => false,
            },
    {
        let ghost us = input.updates@.map_values(|u: Vec<u32>| u@);
        let mut sum: u32 = 0;
        let mut i: usize = 0;
        let ghost mut fixed: Seq<Seq<u32>> = Seq::empty();
        while i < input.updates.len()
            invariant
                i <= us.len(),
                fixed.len() == i,
                forall|m: int|
                    0 <= m < i && !in_order_spec(#[trigger] us[m], input.rules@) ==> fixed_ok(
                        us[m],
                        fixed[m],
                        input.rules@,
                    ),
                sum == p2_sum(us.take(i as int), fixed, input.rules@),
                sum <= 100 * i,
            decreases us.len() - i,
        {
            let update = &input.updates[i];
            proof {
                assert(us[i as int] == input.updates@[i as int]@);
                assert(us[i as int].len() > 0 && pages_bounded(us[i as int], input.rules@));
            }
            let mut add_val: u32 = 0;
            let ghost this_fixed: Seq<u32>;
            if !is_in_order(update, &input.rules) {
                let better = reorder(update, &input.rules);
                proof {
                    this_fixed = better@;
                    // the reordering keeps every page, so it is non-empty
                    assert(us[i as int].len() > 0);
                    assert(us[i as int].contains(us[i as int][0]));
                    assert(better@.contains(us[i as int][0]));
                    assert(better@.len() > 0);
                    assert(better@[better@.len() as int / 2] < PAGES) by {
                        let q = better@[better@.len() as int / 2];
                        assert(better@.contains(q));
                        assert(us[i as int].contains(q));
                        let w = choose|w: int|
                            0 <= w < us[i as int].len() && us[i as int][w] == q;
                        assert(us[i as int][w] < PAGES);
                    }
                }
                add_val = midpoint(&better);
            } else {
                proof {
                    this_fixed = Seq::empty();
                }
            }
            proof {
                lemma_p2_sum_push(us, fixed, this_fixed, input.rules@, i as int);
            }
            sum = sum + add_val;
            proof {
                fixed = fixed.push(this_fixed);
            }
            i += 1;
            proof {
                if in_order_spec(us[i - 1], input.rules@) {
                    assert(sum == p2_sum(us.take(i as int), fixed, input.rules@));
                }
            }
        }
        proof {
            assert(us.take(us.len() as int) =~= us);
        }
        Ok(sum)
    }
}

/// Extending the processed prefix by one update adds exactly its
/// contribution.
proof fn lemma_p2_sum_push(
    us: Seq<Seq<u32>>,
    fixed: Seq<Seq<u32>>,
    this_fixed: Seq<u32>,
    rules: Seq<Rule>,
    i: int,
)
    requires
        0 <= i < us.len(),
        fixed.len() == i,
    ensures
        p2_sum(us.take(i + 1), fixed.push(this_fixed), rules) == p2_sum(us.take(i), fixed, rules)
            + (if !in_order_spec(us[i], rules) {
            this_fixed[this_fixed.len() as int / 2] as int
        } else {
            0int
        }),
    decreases i,
{
    if i == 0 {
        assert(us.take(1)[0] == us[0]);
        assert(us.take(1).len() == 1);
        assert(fixed.push(this_fixed)[0] == this_fixed);
        assert(fixed.push(this_fixed).len() == 1);
        assert(us.take(1).skip(1) =~= Seq::<Seq<u32>>::empty());
        assert(p2_sum(us.take(1).skip(1), fixed.push(this_fixed).skip(1), rules) == 0);
        assert(us.take(0).len() == 0);
        assert(p2_sum(us.take(0), fixed, rules) == 0);
    } else {
        assert(us.take(i + 1)[0] == us[0]);
        assert(us.take(i + 1).skip(1) =~= us.skip(1).take(i));
        assert(us.take(i)[0] == us[0]);
        assert(us.take(i).skip(1) =~= us.skip(1).take(i - 1));
        assert(fixed.push(this_fixed).skip(1) =~= fixed.skip(1).push(this_fixed));
        assert(fixed.push(this_fixed)[0] == fixed[0]);
        assert(us.skip(1)[i - 1] == us[i]);
        assert(us.skip(1).take(i) =~= us.take(i + 1).skip(1));
        assert(us.skip(1).take(i - 1) =~= us.take(i).skip(1));
        lemma_p2_sum_push(us.skip(1), fixed.skip(1), this_fixed, rules, i - 1);
        assert(us.take(i + 1).len() == i + 1);
        assert(p2_sum(us.take(i + 1), fixed.push(this_fixed), rules) == (if !in_order_spec(
            us[0],
            rules,
        ) {
            fixed[0][fixed[0].len() as int / 2] as int
        } else {
            0int
        }) + p2_sum(us.skip(1).take(i), fixed.skip(1).push(this_fixed), rules));
        assert(p2_sum(us.take(i), fixed, rules) == (if !in_order_spec(us[0], rules) {
            fixed[0][fixed[0].len() as int / 2] as int
        } else {
            0int
        }) + p2_sum(us.skip(1).take(i - 1), fixed.skip(1), rules));
    }
}

/// A duplicate-free list drawn from `update` that misses one of
/// `update`'s pages is strictly shorter than `update`.
proof fn lemma_distinct_subset_len(list: Seq<u32>, update: Seq<u32>, missing: u32)
    requires
        forall|i: int, j: int| 0 <= i < j < list.len() ==> list[i] != list[j],
        forall|q: u32| list.contains(q) ==> update.contains(q),
        update.contains(missing),
        !list.contains(missing),
    ensures
        list.len() < update.len(),
    decreases update.len(),
{
    if list.len() > 0 {
        let p = list[0];
        assert(update.contains(p));
        let w = choose|w: int| 0 <= w < update.len() && update[w] == p;
        let update2 = update.remove(w);
        let list2 = list.skip(1);
        assert forall|q: u32| list2.contains(q) implies update2.contains(q) by {
            let m = choose|m: int| 0 <= m < list2.len() && list2[m] == q;
            assert(list[m + 1] == q);
            assert(q != p);
            assert(update.contains(q));
            let u = choose|u: int| 0 <= u < update.len() && update[u] == q;
            if u < w {
                assert(update2[u] == q);
            } else {
                assert(u != w);
                assert(update2[u - 1] == q);
            }
        }
        assert forall|i: int, j: int| 0 <= i < j < list2.len() implies list2[i] != list2[j] by {
            assert(list[i + 1] == list2[i]);
            assert(list[j + 1] == list2[j]);
        }
        assert(update2.contains(missing)) by {
            let u = choose|u: int| 0 <= u < update.len() && update[u] == missing;
            assert(u != w);
            if u < w {
                assert(update2[u] == missing);
            } else {
                assert(update2[u - 1] == missing);
            }
        }
        assert(!list2.contains(missing)) by {
            if list2.contains(missing) {
                let m = choose|m: int| 0 <= m < list2.len() && list2[m] == missing;
                assert(list[m + 1] == missing);
                assert(list.contains(missing));
            }
        }
        lemma_distinct_subset_len(list2, update2, missing);
    } else {
        assert(update.len() > 0) by {
            assert(update.contains(missing));
        }
    }
}

} // verus!
