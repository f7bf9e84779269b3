use vstd::prelude::*;
use std::collections::VecDeque;

verus! {

/// The sequence does not decrease.
pub open spec fn sorted(s: Seq<int>) -> bool {
    forall|i: int, j: int| 0 <= i <= j < s.len() ==> s[i] <= s[j]
}

/// The sequence increases strictly.
pub open spec fn strictly_sorted(s: Seq<int>) -> bool {
    forall|i: int, j: int| 0 <= i < j < s.len() ==> s[i] < s[j]
}

/// Binary search over a sorted collection.
pub trait BinaryCollection<Element> {
    /// The elements, in order, as integers.
    spec fn items(&self) -> Seq<int>;

    /// An element as an integer.
    spec fn item(e: Element) -> int;

    /// Returns the index of the greatest element less than or equal to e
    fn b_search_less(&self, e: &Element) -> usize
        requires
            sorted(self.items()),
            self.items().len() > 0,
            self.items()[0] <= Self::item(*e),
    ;

    /// Returns the index of the least element greater than or equal to e
    fn b_search_greater(&self, e: &Element) -> usize
        requires
            sorted(self.items()),
    ;

    /// Returns the index of e, None if it is not in there
    fn b_search(&self, e: &Element) -> Option<usize>
        requires
            sorted(self.items()),
    ;

    fn b_contains(&self, e: &Element) -> bool
        requires
            sorted(self.items()),
    ;
}


/// Position `p` is where `e` goes in the sorted sequence `s` that does not hold it.
pub open spec fn insertion_point(s: Seq<int>, e: int, p: int) -> bool {
    &&& 0 <= p <= s.len()
    &&& forall|j: int| 0 <= j < p ==> #[trigger] s[j] < e
    &&& forall|j: int| p <= j < s.len() ==> #[trigger] s[j] > e
}

/// Position `p` is where a binary search finds `e` in `s`: an index of `e` when `s` holds
/// it, else the insertion point.
pub open spec fn located(s: Seq<int>, e: int, p: int) -> bool {
    0 <= p <= s.len() && if s.contains(e) {
        s[p] == e
    } else {
        insertion_point(s, e, p)
    }
}

/// Inserting at the insertion point adds the element and keeps the order strict.
proof fn lemma_insert_item(s: Seq<int>, e: int, p: int)
    requires
        sorted(s),
        !s.contains(e),
        insertion_point(s, e, p),
    ensures
        s.insert(p, e).to_set() == s.to_set().insert(e),
        strictly_sorted(s) ==> strictly_sorted(s.insert(p, e)),
{
    let t = s.insert(p, e);
    assert forall|x: int| t.to_set().contains(x) <==> s.to_set().insert(e).contains(x) by {
        if t.contains(x) {
            let j = choose|j: int| 0 <= j < t.len() && t[j] == x;
            if j < p {
                assert(s[j] == x);
            } else if j > p {
                assert(s[j - 1] == x);
            }
        }
        if s.contains(x) {
            let j = choose|j: int| 0 <= j < s.len() && s[j] == x;
            if j < p {
                assert(t[j] == x);
            } else {
                assert(t[j + 1] == x);
            }
        }
        if x == e {
            assert(t[p] == e);
        }
    }
    assert(t.to_set() =~= s.to_set().insert(e));
}

/// A sequence's set already holds its elements.
proof fn lemma_contains_to_set(s: Seq<int>, e: int)
    requires
        s.contains(e),
    ensures
        s.to_set().insert(e) == s.to_set(),
{
    assert(s.to_set().insert(e) =~= s.to_set());
}

/// Insertion into a sorted collection.
pub trait BinaryResizableCollection<Element>: BinaryCollection<Element> {
    fn b_insert_replace(&mut self, e: Element) -> Option<Element>
        requires
            sorted(old(self).items()),
    ;

    fn b_insert_keep(&mut self, e: Element) -> Option<&Element>
        requires
            sorted(old(self).items()),
    ;

    fn b_insert_before(&mut self, e: Element)
        requires
            sorted(old(self).items()),
    ;

    fn b_insert_after(&mut self, e: Element)
        requires
            sorted(old(self).items()),
            old(self).items().len() > 0,
    ;
}

impl BinaryCollection<u32> for Vec<u32> {
    open spec fn items(&self) -> Seq<int> {
        self@.map_values(|x: u32| x as int)
    }

    open spec fn item(e: u32) -> int {
        e as int
    }

    fn b_search_less(&self, e: &u32) -> (r: usize)
        ensures
            r < self.items().len(),
            self.items().contains(Self::item(*e)) ==> self.items()[r as int] == Self::item(*e),
            !self.items().contains(Self::item(*e)) ==> self.items()[r as int] < Self::item(*e) && (
            r + 1 == self.items().len() || self.items()[r + 1] > Self::item(*e)),
    {
        let ghost s = self.items();
        let mut low: usize = 0;
        let mut high: usize = self.len() - 1;
        while low <= high
            invariant
                s == self.items(),
                sorted(s),
                s.len() == self.len(),
                s.len() > 0,
                s[0] <= *e,
                high < s.len(),
                low <= high + 1,
                forall|j: int| 0 <= j < low ==> s[j] < *e,
                forall|j: int| high < j < s.len() ==> s[j] > *e,
            decreases high + 1 - low,
        {
            let mid = low + (high - low) / 2;
            let v = self[mid];
            assert(s[mid as int] == v);
            if v == *e {
                return mid;
            } else if v < *e {
                assert forall|j: int| 0 <= j < mid + 1 implies s[j] < *e by {
                    assert(s[j] <= s[mid as int]);
                }
                low = mid + 1;
            } else {
                assert forall|j: int| mid <= j < s.len() implies s[j] > *e by {
                    assert(s[mid as int] <= s[j]);
                }
                assert(mid > 0) by {
                    if mid == 0 {
                        assert(s[0] <= *e);
                    }
                }
                high = mid - 1;
            }
        }
        proof {
            if s.contains(*e as int) {
                let j = choose|j: int| 0 <= j < s.len() && s[j] == *e;
            }
        }
        high
    }

    fn b_search_greater(&self, e: &u32) -> (r: usize)
        ensures
            r <= self.items().len(),
            self.items().contains(Self::item(*e)) ==> r < self.items().len() && self.items()[r as int]
                == Self::item(*e),
            !self.items().contains(Self::item(*e)) ==> (forall|j: int|
                0 <= j < r ==> #[trigger] self.items()[j] < Self::item(*e)) && (forall|j: int|
                r <= j < self.items().len() ==> #[trigger] self.items()[j] > Self::item(*e)),
    {
        let ghost s = self.items();
        if self.len() == 0 {
            return 0;
        }
        let mut low: usize = 0;
        let mut high: usize = self.len() - 1;
        while low <= high
            invariant
                s == self.items(),
                sorted(s),
                s.len() == self.len(),
                s.len() > 0,
                high < s.len(),
                low <= high + 1,
                forall|j: int| 0 <= j < low ==> s[j] < *e,
                forall|j: int| high < j < s.len() ==> s[j] > *e,
            decreases high + 1 - low,
        {
            let mid = low + (high - low) / 2;
            let v = self[mid];
            assert(s[mid as int] == v);
            if v == *e {
                return mid;
            } else if v < *e {
                assert forall|j: int| 0 <= j < mid + 1 implies s[j] < *e by {
                    assert(s[j] <= s[mid as int]);
                }
                low = mid + 1;
            } else {
                assert forall|j: int| mid <= j < s.len() implies s[j] > *e by {
                    assert(s[mid as int] <= s[j]);
                }
                if mid == 0 {
                    proof {
                        if s.contains(*e as int) {
                            let j = choose|j: int| 0 <= j < s.len() && s[j] == *e;
                        }
                    }
                    return 0;
                }
                high = mid - 1;
            }
        }
        proof {
            if s.contains(*e as int) {
                let j = choose|j: int| 0 <= j < s.len() && s[j] == *e;
            }
        }
        low
    }

    fn b_search(&self, e: &u32) -> (r: Option<usize>)
        ensures
            r is Some <==> self.items().contains(Self::item(*e)),
            r matches Some(i) ==> i < self.items().len() && self.items()[i as int] == Self::item(*e),
    {
        let ghost s = self.items();
        if self.len() == 0 {
            return None;
        }
        let mut low: usize = 0;
        let mut high: usize = self.len() - 1;
        while low <= high
            invariant
                s == self.items(),
                sorted(s),
                s.len() == self.len(),
                s.len() > 0,
                high < s.len(),
                low <= high + 1,
                forall|j: int| 0 <= j < low ==> s[j] < *e,
                forall|j: int| high < j < s.len() ==> s[j] > *e,
            decreases high + 1 - low,
        {
            let mid = low + (high - low) / 2;
            let v = self[mid];
            assert(s[mid as int] == v);
            if v == *e {
                return Some(mid);
            } else if v < *e {
                assert forall|j: int| 0 <= j < mid + 1 implies s[j] < *e by {
                    assert(s[j] <= s[mid as int]);
                }
                low = mid + 1;
            } else {
                assert forall|j: int| mid <= j < s.len() implies s[j] > *e by {
                    assert(s[mid as int] <= s[j]);
                }
                if mid == 0 {
                    proof {
                        if s.contains(*e as int) {
                            let j = choose|j: int| 0 <= j < s.len() && s[j] == *e;
                        }
                    }
                    return None;
                }
                high = mid - 1;
            }
        }
        proof {
            if s.contains(*e as int) {
                let j = choose|j: int| 0 <= j < s.len() && s[j] == *e;
            }
        }
        None
    }

    fn b_contains(&self, e: &u32) -> (r: bool)
        ensures
            r == self.items().contains(Self::item(*e)),
    {
        let ghost s = self.items();
        if self.len() == 0 {
            return false;
        }
        let mut low: usize = 0;
        let mut high: usize = self.len() - 1;
        while low <= high
            invariant
                s == self.items(),
                sorted(s),
                s.len() == self.len(),
                s.len() > 0,
                high < s.len(),
                low <= high + 1,
                forall|j: int| 0 <= j < low ==> s[j] < *e,
                forall|j: int| high < j < s.len() ==> s[j] > *e,
            decreases high + 1 - low,
        {
            let mid = low + (high - low) / 2;
            let v = self[mid];
            assert(s[mid as int] == v);
            if v == *e {
                return true;
            } else if v < *e {
                assert forall|j: int| 0 <= j < mid + 1 implies s[j] < *e by {
                    assert(s[j] <= s[mid as int]);
                }
                low = mid + 1;
            } else {
                assert forall|j: int| mid <= j < s.len() implies s[j] > *e by {
                    assert(s[mid as int] <= s[j]);
                }
                if mid == 0 {
                    proof {
                        if s.contains(*e as int) {
                            let j = choose|j: int| 0 <= j < s.len() && s[j] == *e;
                        }
                    }
                    return false;
                }
                high = mid - 1;
            }
        }
        proof {
            if s.contains(*e as int) {
                let j = choose|j: int| 0 <= j < s.len() && s[j] == *e;
            }
        }
        false
    }
}

impl BinaryCollection<usize> for Vec<usize> {
    open spec fn items(&self) -> Seq<int> {
        self@.map_values(|x: usize| x as int)
    }

    open spec fn item(e: usize) -> int {
        e as int
    }

    fn b_search_less(&self, e: &usize) -> (r: usize)
        ensures
            r < self.items().len(),
            self.items().contains(Self::item(*e)) ==> self.items()[r as int] == Self::item(*e),
            !self.items().contains(Self::item(*e)) ==> self.items()[r as int] < Self::item(*e) && (
            r + 1 == self.items().len() || self.items()[r + 1] > Self::item(*e)),
    {
        let ghost s = self.items();
        let mut low: usize = 0;
        let mut high: usize = self.len() - 1;
        while low <= high
            invariant
                s == self.items(),
                sorted(s),
                s.len() == self.len(),
                s.len() > 0,
                s[0] <= *e,
                high < s.len(),
                low <= high + 1,
                forall|j: int| 0 <= j < low ==> s[j] < *e,
                forall|j: int| high < j < s.len() ==> s[j] > *e,
            decreases high + 1 - low,
        {
            let mid = low + (high - low) / 2;
            let v = self[mid];
            assert(s[mid as int] == v);
            if v == *e {
                return mid;
            } else if v < *e {
                assert forall|j: int| 0 <= j < mid + 1 implies s[j] < *e by {
                    assert(s[j] <= s[mid as int]);
                }
                low = mid + 1;
            } else {
                assert forall|j: int| mid <= j < s.len() implies s[j] > *e by {
                    assert(s[mid as int] <= s[j]);
                }
                assert(mid > 0) by {
                    if mid == 0 {
                        assert(s[0] <= *e);
                    }
                }
                high = mid - 1;
            }
        }
        proof {
            if s.contains(*e as int) {
                let j = choose|j: int| 0 <= j < s.len() && s[j] == *e;
            }
        }
        high
    }

    fn b_search_greater(&self, e: &usize) -> (r: usize)
        ensures
            r <= self.items().len(),
            self.items().contains(Self::item(*e)) ==> r < self.items().len() && self.items()[r as int]
                == Self::item(*e),
            !self.items().contains(Self::item(*e)) ==> (forall|j: int|
                0 <= j < r ==> #[trigger] self.items()[j] < Self::item(*e)) && (forall|j: int|
                r <= j < self.items().len() ==> #[trigger] self.items()[j] > Self::item(*e)),
    {
        let ghost s = self.items();
        if self.len() == 0 {
            return 0;
        }
        let mut low: usize = 0;
        let mut high: usize = self.len() - 1;
        while low <= high
            invariant
                s == self.items(),
                sorted(s),
                s.len() == self.len(),
                s.len() > 0,
                high < s.len(),
                low <= high + 1,
                forall|j: int| 0 <= j < low ==> s[j] < *e,
                forall|j: int| high < j < s.len() ==> s[j] > *e,
            decreases high + 1 - low,
        {
            let mid = low + (high - low) / 2;
            let v = self[mid];
            assert(s[mid as int] == v);
            if v == *e {
                return mid;
            } else if v < *e {
                assert forall|j: int| 0 <= j < mid + 1 implies s[j] < *e by {
                    assert(s[j] <= s[mid as int]);
                }
                low = mid + 1;
            } else {
                assert forall|j: int| mid <= j < s.len() implies s[j] > *e by {
                    assert(s[mid as int] <= s[j]);
                }
                if mid == 0 {
                    proof {
                        if s.contains(*e as int) {
                            let j = choose|j: int| 0 <= j < s.len() && s[j] == *e;
                        }
                    }
                    return 0;
                }
                high = mid - 1;
            }
        }
        proof {
            if s.contains(*e as int) {
                let j = choose|j: int| 0 <= j < s.len() && s[j] == *e;
            }
        }
        low
    }

    fn b_search(&self, e: &usize) -> (r: Option<usize>)
        ensures
            r is Some <==> self.items().contains(Self::item(*e)),
            r matches Some(i) ==> i < self.items().len() && self.items()[i as int] == Self::item(*e),
    {
        let ghost s = self.items();
        if self.len() == 0 {
            return None;
        }
        let mut low: usize = 0;
        let mut high: usize = self.len() - 1;
        while low <= high
            invariant
                s == self.items(),
                sorted(s),
                s.len() == self.len(),
                s.len() > 0,
                high < s.len(),
                low <= high + 1,
                forall|j: int| 0 <= j < low ==> s[j] < *e,
                forall|j: int| high < j < s.len() ==> s[j] > *e,
            decreases high + 1 - low,
        {
            let mid = low + (high - low) / 2;
            let v = self[mid];
            assert(s[mid as int] == v);
            if v == *e {
                return Some(mid);
            } else if v < *e {
                assert forall|j: int| 0 <= j < mid + 1 implies s[j] < *e by {
                    assert(s[j] <= s[mid as int]);
                }
                low = mid + 1;
            } else {
                assert forall|j: int| mid <= j < s.len() implies s[j] > *e by {
                    assert(s[mid as int] <= s[j]);
                }
                if mid == 0 {
                    proof {
                        if s.contains(*e as int) {
                            let j = choose|j: int| 0 <= j < s.len() && s[j] == *e;
                        }
                    }
                    return None;
                }
                high = mid - 1;
            }
        }
        proof {
            if s.contains(*e as int) {
                let j = choose|j: int| 0 <= j < s.len() && s[j] == *e;
            }
        }
        None
    }

    fn b_contains(&self, e: &usize) -> (r: bool)
        ensures
            r == self.items().contains(Self::item(*e)),
    {
        let ghost s = self.items();
        if self.len() == 0 {
            return false;
        }
        let mut low: usize = 0;
        let mut high: usize = self.len() - 1;
        while low <= high
            invariant
                s == self.items(),
                sorted(s),
                s.len() == self.len(),
                s.len() > 0,
                high < s.len(),
                low <= high + 1,
                forall|j: int| 0 <= j < low ==> s[j] < *e,
                forall|j: int| high < j < s.len() ==> s[j] > *e,
            decreases high + 1 - low,
        {
            let mid = low + (high - low) / 2;
            let v = self[mid];
            assert(s[mid as int] == v);
            if v == *e {
                return true;
            } else if v < *e {
                assert forall|j: int| 0 <= j < mid + 1 implies s[j] < *e by {
                    assert(s[j] <= s[mid as int]);
                }
                low = mid + 1;
            } else {
                assert forall|j: int| mid <= j < s.len() implies s[j] > *e by {
                    assert(s[mid as int] <= s[j]);
                }
                if mid == 0 {
                    proof {
                        if s.contains(*e as int) {
                            let j = choose|j: int| 0 <= j < s.len() && s[j] == *e;
                        }
                    }
                    return false;
                }
                high = mid - 1;
            }
        }
        proof {
            if s.contains(*e as int) {
                let j = choose|j: int| 0 <= j < s.len() && s[j] == *e;
            }
        }
        false
    }
}

impl BinaryResizableCollection<u32> for Vec<u32> {
    fn b_insert_replace(&mut self, e: u32) -> (r: Option<u32>)
        ensures
            old(self).items().contains(e as int) ==> r == Some(e) && final(self).items() == old(self).items(),
            !old(self).items().contains(e as int) ==> r is None && exists|p: int|
                insertion_point(old(self).items(), e as int, p) && final(self).items()
                    == old(self).items().insert(p, e as int),
            final(self).items().to_set() == old(self).items().to_set().insert(e as int),
            strictly_sorted(old(self).items()) ==> strictly_sorted(final(self).items()),
    {
        let ghost s = self.items();
        let i = self.b_search_greater(&e);
        if i == self.len() {
            self.push(e);
            proof {
                lemma_insert_item(s, e as int, i as int);
                assert(self.items() =~= s.insert(i as int, e as int));
            }
            return None;
        }
        if self[i] == e {
            let old_e = self[i];
            self.set(i, e);
            proof {
                assert(self.items() =~= s);
                assert(s[i as int] == e as int);
                lemma_contains_to_set(s, e as int);
            }
            return Some(old_e);
        }
        self.insert(i, e);
        proof {
            lemma_insert_item(s, e as int, i as int);
            assert(self.items() =~= s.insert(i as int, e as int));
        }
        None
    }

    fn b_insert_keep(&mut self, e: u32) -> (r: Option<&u32>)
        ensures
            old(self).items().contains(e as int) ==> r == Some(&e) && final(self).items() == old(self).items(),
            !old(self).items().contains(e as int) ==> r is None && exists|p: int|
                insertion_point(old(self).items(), e as int, p) && final(self).items()
                    == old(self).items().insert(p, e as int),
            final(self).items().to_set() == old(self).items().to_set().insert(e as int),
            strictly_sorted(old(self).items()) ==> strictly_sorted(final(self).items()),
    {
        let ghost s = self.items();
        let i = self.b_search_greater(&e);
        if i == self.len() {
            self.push(e);
            proof {
                lemma_insert_item(s, e as int, i as int);
                assert(self.items() =~= s.insert(i as int, e as int));
            }
            return None;
        }
        if self[i] == e {
            proof {
                assert(s[i as int] == e as int);
                lemma_contains_to_set(s, e as int);
            }
            return Some(&self[i]);
        }
        self.insert(i, e);
        proof {
            lemma_insert_item(s, e as int, i as int);
            assert(self.items() =~= s.insert(i as int, e as int));
        }
        None
    }

    fn b_insert_before(&mut self, e: u32)
        ensures
            exists|p: int|
                #[trigger] located(old(self).items(), e as int, p) && final(self).items()
                    == old(self).items().insert(p, e as int),
    {
        let ghost s = self.items();
        let i = self.b_search_greater(&e);
        self.insert(i, e);
        proof {
            assert(self.items() =~= s.insert(i as int, e as int));
            assert(located(s, e as int, i as int));
        }
    }

    fn b_insert_after(&mut self, e: u32)
        ensures
            exists|p: int|
                #[trigger] located(old(self).items(), e as int, p) && final(self).items()
                    == old(self).items().insert(
                    (if p < old(self).items().len() - 1 { p } else { old(self).items().len() - 1 }) + 1,
                    e as int,
                ),
    {
        let ghost s = self.items();
        let g = self.b_search_greater(&e);
        let last = self.len() - 1;
        let i = if g < last { g } else { last };
        self.insert(i + 1, e);
        proof {
            assert(self.items() =~= s.insert(i + 1, e as int));
            assert(located(s, e as int, g as int));
        }
    }
}

impl BinaryResizableCollection<usize> for Vec<usize> {
    fn b_insert_replace(&mut self, e: usize) -> (r: Option<usize>)
        ensures
            old(self).items().contains(e as int) ==> r == Some(e) && final(self).items() == old(self).items(),
            !old(self).items().contains(e as int) ==> r is None && exists|p: int|
                insertion_point(old(self).items(), e as int, p) && final(self).items()
                    == old(self).items().insert(p, e as int),
            final(self).items().to_set() == old(self).items().to_set().insert(e as int),
            strictly_sorted(old(self).items()) ==> strictly_sorted(final(self).items()),
    {
        let ghost s = self.items();
        let i = self.b_search_greater(&e);
        if i == self.len() {
            self.push(e);
            proof {
                lemma_insert_item(s, e as int, i as int);
                assert(self.items() =~= s.insert(i as int, e as int));
            }
            return None;
        }
        if self[i] == e {
            let old_e = self[i];
            self.set(i, e);
            proof {
                assert(self.items() =~= s);
                assert(s[i as int] == e as int);
                lemma_contains_to_set(s, e as int);
            }
            return Some(old_e);
        }
        self.insert(i, e);
        proof {
            lemma_insert_item(s, e as int, i as int);
            assert(self.items() =~= s.insert(i as int, e as int));
        }
        None
    }

    fn b_insert_keep(&mut self, e: usize) -> (r: Option<&usize>)
        ensures
            old(self).items().contains(e as int) ==> r == Some(&e) && final(self).items() == old(self).items(),
            !old(self).items().contains(e as int) ==> r is None && exists|p: int|
                insertion_point(old(self).items(), e as int, p) && final(self).items()
                    == old(self).items().insert(p, e as int),
            final(self).items().to_set() == old(self).items().to_set().insert(e as int),
            strictly_sorted(old(self).items()) ==> strictly_sorted(final(self).items()),
    {
        let ghost s = self.items();
        let i = self.b_search_greater(&e);
        if i == self.len() {
            self.push(e);
            proof {
                lemma_insert_item(s, e as int, i as int);
                assert(self.items() =~= s.insert(i as int, e as int));
            }
            return None;
        }
        if self[i] == e {
            proof {
                assert(s[i as int] == e as int);
                lemma_contains_to_set(s, e as int);
            }
            return Some(&self[i]);
        }
        self.insert(i, e);
        proof {
            lemma_insert_item(s, e as int, i as int);
            assert(self.items() =~= s.insert(i as int, e as int));
        }
        None
    }

    fn b_insert_before(&mut self, e: usize)
        ensures
            exists|p: int|
                #[trigger] located(old(self).items(), e as int, p) && final(self).items()
                    == old(self).items().insert(p, e as int),
    {
        let ghost s = self.items();
        let i = self.b_search_greater(&e);
        self.insert(i, e);
        proof {
            assert(self.items() =~= s.insert(i as int, e as int));
            assert(located(s, e as int, i as int));
        }
    }

    fn b_insert_after(&mut self, e: usize)
        ensures
            exists|p: int|
                #[trigger] located(old(self).items(), e as int, p) && final(self).items()
                    == old(self).items().insert(
                    (if p < old(self).items().len() - 1 { p } else { old(self).items().len() - 1 }) + 1,
                    e as int,
                ),
    {
        let ghost s = self.items();
        let g = self.b_search_greater(&e);
        let last = self.len() - 1;
        let i = if g < last { g } else { last };
        self.insert(i + 1, e);
        proof {
            assert(self.items() =~= s.insert(i + 1, e as int));
            assert(located(s, e as int, g as int));
        }
    }
}


impl BinaryCollection<u32> for VecDeque<u32> {
    open spec fn items(&self) -> Seq<int> {
        self@.map_values(|x: u32| x as int)
    }

    open spec fn item(e: u32) -> int {
        e as int
    }

    fn b_search_less(&self, e: &u32) -> (r: usize)
        ensures
            r < self.items().len(),
            self.items().contains(Self::item(*e)) ==> self.items()[r as int] == Self::item(*e),
            !self.items().contains(Self::item(*e)) ==> self.items()[r as int] < Self::item(*e) && (
            r + 1 == self.items().len() || self.items()[r + 1] > Self::item(*e)),
    {
        let ghost s = self.items();
        let mut low: usize = 0;
        let mut high: usize = self.len() - 1;
        while low <= high
            invariant
                s == self.items(),
                sorted(s),
                s.len() == self.len(),
                s.len() > 0,
                s[0] <= *e,
                high < s.len(),
                low <= high + 1,
                forall|j: int| 0 <= j < low ==> s[j] < *e,
                forall|j: int| high < j < s.len() ==> s[j] > *e,
            decreases high + 1 - low,
        {
            let mid = low + (high - low) / 2;
            let v = self[mid];
            assert(s[mid as int] == v);
            if v == *e {
                return mid;
            } else if v < *e {
                assert forall|j: int| 0 <= j < mid + 1 implies s[j] < *e by {
                    assert(s[j] <= s[mid as int]);
                }
                low = mid + 1;
            } else {
                assert forall|j: int| mid <= j < s.len() implies s[j] > *e by {
                    assert(s[mid as int] <= s[j]);
                }
                assert(mid > 0) by {
                    if mid == 0 {
                        assert(s[0] <= *e);
                    }
                }
                high = mid - 1;
            }
        }
        proof {
            if s.contains(*e as int) {
                let j = choose|j: int| 0 <= j < s.len() && s[j] == *e;
            }
        }
        high
    }

    fn b_search_greater(&self, e: &u32) -> (r: usize)
        ensures
            r <= self.items().len(),
            self.items().contains(Self::item(*e)) ==> r < self.items().len() && self.items()[r as int]
                == Self::item(*e),
            !self.items().contains(Self::item(*e)) ==> (forall|j: int|
                0 <= j < r ==> #[trigger] self.items()[j] < Self::item(*e)) && (forall|j: int|
                r <= j < self.items().len() ==> #[trigger] self.items()[j] > Self::item(*e)),
    {
        let ghost s = self.items();
        if self.len() == 0 {
            return 0;
        }
        let mut low: usize = 0;
        let mut high: usize = self.len() - 1;
        while low <= high
            invariant
                s == self.items(),
                sorted(s),
                s.len() == self.len(),
                s.len() > 0,
                high < s.len(),
                low <= high + 1,
                forall|j: int| 0 <= j < low ==> s[j] < *e,
                forall|j: int| high < j < s.len() ==> s[j] > *e,
            decreases high + 1 - low,
        {
            let mid = low + (high - low) / 2;
            let v = self[mid];
            assert(s[mid as int] == v);
            if v == *e {
                return mid;
            } else if v < *e {
                assert forall|j: int| 0 <= j < mid + 1 implies s[j] < *e by {
                    assert(s[j] <= s[mid as int]);
                }
                low = mid + 1;
            } else {
                assert forall|j: int| mid <= j < s.len() implies s[j] > *e by {
                    assert(s[mid as int] <= s[j]);
                }
                if mid == 0 {
                    proof {
                        if s.contains(*e as int) {
                            let j = choose|j: int| 0 <= j < s.len() && s[j] == *e;
                        }
                    }
                    return 0;
                }
                high = mid - 1;
            }
        }
        proof {
            if s.contains(*e as int) {
                let j = choose|j: int| 0 <= j < s.len() && s[j] == *e;
            }
        }
        low
    }

    fn b_search(&self, e: &u32) -> (r: Option<usize>)
        ensures
            r is Some <==> self.items().contains(Self::item(*e)),
            r matches Some(i) ==> i < self.items().len() && self.items()[i as int] == Self::item(*e),
    {
        let ghost s = self.items();
        if self.len() == 0 {
            return None;
        }
        let mut low: usize = 0;
        let mut high: usize = self.len() - 1;
        while low <= high
            invariant
                s == self.items(),
                sorted(s),
                s.len() == self.len(),
                s.len() > 0,
                high < s.len(),
                low <= high + 1,
                forall|j: int| 0 <= j < low ==> s[j] < *e,
                forall|j: int| high < j < s.len() ==> s[j] > *e,
            decreases high + 1 - low,
        {
            let mid = low + (high - low) / 2;
            let v = self[mid];
            assert(s[mid as int] == v);
            if v == *e {
                return Some(mid);
            } else if v < *e {
                assert forall|j: int| 0 <= j < mid + 1 implies s[j] < *e by {
                    assert(s[j] <= s[mid as int]);
                }
                low = mid + 1;
            } else {
                assert forall|j: int| mid <= j < s.len() implies s[j] > *e by {
                    assert(s[mid as int] <= s[j]);
                }
                if mid == 0 {
                    proof {
                        if s.contains(*e as int) {
                            let j = choose|j: int| 0 <= j < s.len() && s[j] == *e;
                        }
                    }
                    return None;
                }
                high = mid - 1;
            }
        }
        proof {
            if s.contains(*e as int) {
                let j = choose|j: int| 0 <= j < s.len() && s[j] == *e;
            }
        }
        None
    }

    fn b_contains(&self, e: &u32) -> (r: bool)
        ensures
            r == self.items().contains(Self::item(*e)),
    {
        let ghost s = self.items();
        if self.len() == 0 {
            return false;
        }
        let mut low: usize = 0;
        let mut high: usize = self.len() - 1;
        while low <= high
            invariant
                s == self.items(),
                sorted(s),
                s.len() == self.len(),
                s.len() > 0,
                high < s.len(),
                low <= high + 1,
                forall|j: int| 0 <= j < low ==> s[j] < *e,
                forall|j: int| high < j < s.len() ==> s[j] > *e,
            decreases high + 1 - low,
        {
            let mid = low + (high - low) / 2;
            let v = self[mid];
            assert(s[mid as int] == v);
            if v == *e {
                return true;
            } else if v < *e {
                assert forall|j: int| 0 <= j < mid + 1 implies s[j] < *e by {
                    assert(s[j] <= s[mid as int]);
                }
                low = mid + 1;
            } else {
                assert forall|j: int| mid <= j < s.len() implies s[j] > *e by {
                    assert(s[mid as int] <= s[j]);
                }
                if mid == 0 {
                    proof {
                        if s.contains(*e as int) {
                            let j = choose|j: int| 0 <= j < s.len() && s[j] == *e;
                        }
                    }
                    return false;
                }
                high = mid - 1;
            }
        }
        proof {
            if s.contains(*e as int) {
                let j = choose|j: int| 0 <= j < s.len() && s[j] == *e;
            }
        }
        false
    }
}

impl BinaryResizableCollection<u32> for VecDeque<u32> {
    fn b_insert_replace(&mut self, e: u32) -> (r: Option<u32>)
        ensures
            old(self).items().contains(e as int) ==> r == Some(e) && final(self).items() == old(self).items(),
            !old(self).items().contains(e as int) ==> r is None && exists|p: int|
                insertion_point(old(self).items(), e as int, p) && final(self).items()
                    == old(self).items().insert(p, e as int),
            final(self).items().to_set() == old(self).items().to_set().insert(e as int),
            strictly_sorted(old(self).items()) ==> strictly_sorted(final(self).items()),
    {
        let ghost s = self.items();
        let i = self.b_search_greater(&e);
        if i == self.len() {
            self.push_back(e);
            proof {
                lemma_insert_item(s, e as int, i as int);
                assert(self.items() =~= s.insert(i as int, e as int));
            }
            return None;
        }
        if self[i] == e {
            let old_e = self[i];
            proof {
                assert(s[i as int] == e as int);
                lemma_contains_to_set(s, e as int);
            }
            return Some(old_e);
        }
        self.insert(i, e);
        proof {
            lemma_insert_item(s, e as int, i as int);
            assert(self.items() =~= s.insert(i as int, e as int));
        }
        None
    }

    fn b_insert_keep(&mut self, e: u32) -> (r: Option<&u32>)
        ensures
            old(self).items().contains(e as int) ==> r == Some(&e) && final(self).items() == old(self).items(),
            !old(self).items().contains(e as int) ==> r is None && exists|p: int|
                insertion_point(old(self).items(), e as int, p) && final(self).items()
                    == old(self).items().insert(p, e as int),
            final(self).items().to_set() == old(self).items().to_set().insert(e as int),
            strictly_sorted(old(self).items()) ==> strictly_sorted(final(self).items()),
    {
        let ghost s = self.items();
        let i = self.b_search_greater(&e);
        if i == self.len() {
            self.push_back(e);
            proof {
                lemma_insert_item(s, e as int, i as int);
                assert(self.items() =~= s.insert(i as int, e as int));
            }
            return None;
        }
        if self[i] == e {
            proof {
                assert(s[i as int] == e as int);
                lemma_contains_to_set(s, e as int);
            }
            return Some(&self[i]);
        }
        self.insert(i, e);
        proof {
            lemma_insert_item(s, e as int, i as int);
            assert(self.items() =~= s.insert(i as int, e as int));
        }
        None
    }

    fn b_insert_before(&mut self, e: u32)
        ensures
            exists|p: int|
                #[trigger] located(old(self).items(), e as int, p) && final(self).items()
                    == old(self).items().insert(p, e as int),
    {
        let ghost s = self.items();
        let i = self.b_search_greater(&e);
        self.insert(i, e);
        proof {
            assert(self.items() =~= s.insert(i as int, e as int));
            assert(located(s, e as int, i as int));
        }
    }

    fn b_insert_after(&mut self, e: u32)
        ensures
            exists|p: int|
                #[trigger] located(old(self).items(), e as int, p) && final(self).items()
                    == old(self).items().insert(
                    (if p < old(self).items().len() - 1 { p } else { old(self).items().len() - 1 }) + 1,
                    e as int,
                ),
    {
        let ghost s = self.items();
        let g = self.b_search_greater(&e);
        let last = self.len() - 1;
        let i = if g < last { g } else { last };
        self.insert(i + 1, e);
        proof {
            assert(self.items() =~= s.insert(i + 1, e as int));
            assert(located(s, e as int, g as int));
        }
    }
}


impl<const L: usize> BinaryCollection<u32> for [u32; L] {
    open spec fn items(&self) -> Seq<int> {
        self@.map_values(|x: u32| x as int)
    }

    open spec fn item(e: u32) -> int {
        e as int
    }

    fn b_search_less(&self, e: &u32) -> (r: usize)
        ensures
            r < self.items().len(),
            self.items().contains(Self::item(*e)) ==> self.items()[r as int] == Self::item(*e),
            !self.items().contains(Self::item(*e)) ==> self.items()[r as int] < Self::item(*e) && (
            r + 1 == self.items().len() || self.items()[r + 1] > Self::item(*e)),
    {
        let ghost s = self.items();
        let mut low: usize = 0;
        let mut high: usize = self.len() - 1;
        while low <= high
            invariant
                s == self.items(),
                sorted(s),
                s.len() == self.len(),
                s.len() > 0,
                s[0] <= *e,
                high < s.len(),
                low <= high + 1,
                forall|j: int| 0 <= j < low ==> s[j] < *e,
                forall|j: int| high < j < s.len() ==> s[j] > *e,
            decreases high + 1 - low,
        {
            let mid = low + (high - low) / 2;
            let v = self[mid];
            assert(s[mid as int] == v);
            if v == *e {
                return mid;
            } else if v < *e {
                assert forall|j: int| 0 <= j < mid + 1 implies s[j] < *e by {
                    assert(s[j] <= s[mid as int]);
                }
                low = mid + 1;
            } else {
                assert forall|j: int| mid <= j < s.len() implies s[j] > *e by {
                    assert(s[mid as int] <= s[j]);
                }
                assert(mid > 0) by {
                    if mid == 0 {
                        assert(s[0] <= *e);
                    }
                }
                high = mid - 1;
            }
        }
        proof {
            if s.contains(*e as int) {
                let j = choose|j: int| 0 <= j < s.len() && s[j] == *e;
            }
        }
        high
    }

    fn b_search_greater(&self, e: &u32) -> (r: usize)
        ensures
            r <= self.items().len(),
            self.items().contains(Self::item(*e)) ==> r < self.items().len() && self.items()[r as int]
                == Self::item(*e),
            !self.items().contains(Self::item(*e)) ==> (forall|j: int|
                0 <= j < r ==> #[trigger] self.items()[j] < Self::item(*e)) && (forall|j: int|
                r <= j < self.items().len() ==> #[trigger] self.items()[j] > Self::item(*e)),
    {
        let ghost s = self.items();
        if self.len() == 0 {
            return 0;
        }
        let mut low: usize = 0;
        let mut high: usize = self.len() - 1;
        while low <= high
            invariant
                s == self.items(),
                sorted(s),
                s.len() == self.len(),
                s.len() > 0,
                high < s.len(),
                low <= high + 1,
                forall|j: int| 0 <= j < low ==> s[j] < *e,
                forall|j: int| high < j < s.len() ==> s[j] > *e,
            decreases high + 1 - low,
        {
            let mid = low + (high - low) / 2;
            let v = self[mid];
            assert(s[mid as int] == v);
            if v == *e {
                return mid;
            } else if v < *e {
                assert forall|j: int| 0 <= j < mid + 1 implies s[j] < *e by {
                    assert(s[j] <= s[mid as int]);
                }
                low = mid + 1;
            } else {
                assert forall|j: int| mid <= j < s.len() implies s[j] > *e by {
                    assert(s[mid as int] <= s[j]);
                }
                if mid == 0 {
                    proof {
                        if s.contains(*e as int) {
                            let j = choose|j: int| 0 <= j < s.len() && s[j] == *e;
                        }
                    }
                    return 0;
                }
                high = mid - 1;
            }
        }
        proof {
            if s.contains(*e as int) {
                let j = choose|j: int| 0 <= j < s.len() && s[j] == *e;
            }
        }
        low
    }

    fn b_search(&self, e: &u32) -> (r: Option<usize>)
        ensures
            r is Some <==> self.items().contains(Self::item(*e)),
            r matches Some(i) ==> i < self.items().len() && self.items()[i as int] == Self::item(*e),
    {
        let ghost s = self.items();
        if self.len() == 0 {
            return None;
        }
        let mut low: usize = 0;
        let mut high: usize = self.len() - 1;
        while low <= high
            invariant
                s == self.items(),
                sorted(s),
                s.len() == self.len(),
                s.len() > 0,
                high < s.len(),
                low <= high + 1,
                forall|j: int| 0 <= j < low ==> s[j] < *e,
                forall|j: int| high < j < s.len() ==> s[j] > *e,
            decreases high + 1 - low,
        {
            let mid = low + (high - low) / 2;
            let v = self[mid];
            assert(s[mid as int] == v);
            if v == *e {
                return Some(mid);
            } else if v < *e {
                assert forall|j: int| 0 <= j < mid + 1 implies s[j] < *e by {
                    assert(s[j] <= s[mid as int]);
                }
                low = mid + 1;
            } else {
                assert forall|j: int| mid <= j < s.len() implies s[j] > *e by {
                    assert(s[mid as int] <= s[j]);
                }
                if mid == 0 {
                    proof {
                        if s.contains(*e as int) {
                            let j = choose|j: int| 0 <= j < s.len() && s[j] == *e;
                        }
                    }
                    return None;
                }
                high = mid - 1;
            }
        }
        proof {
            if s.contains(*e as int) {
                let j = choose|j: int| 0 <= j < s.len() && s[j] == *e;
            }
        }
        None
    }

    fn b_contains(&self, e: &u32) -> (r: bool)
        ensures
            r == self.items().contains(Self::item(*e)),
    {
        let ghost s = self.items();
        if self.len() == 0 {
            return false;
        }
        let mut low: usize = 0;
        let mut high: usize = self.len() - 1;
        while low <= high
            invariant
                s == self.items(),
                sorted(s),
                s.len() == self.len(),
                s.len() > 0,
                high < s.len(),
                low <= high + 1,
                forall|j: int| 0 <= j < low ==> s[j] < *e,
                forall|j: int| high < j < s.len() ==> s[j] > *e,
            decreases high + 1 - low,
        {
            let mid = low + (high - low) / 2;
            let v = self[mid];
            assert(s[mid as int] == v);
            if v == *e {
                return true;
            } else if v < *e {
                assert forall|j: int| 0 <= j < mid + 1 implies s[j] < *e by {
                    assert(s[j] <= s[mid as int]);
                }
                low = mid + 1;
            } else {
                assert forall|j: int| mid <= j < s.len() implies s[j] > *e by {
                    assert(s[mid as int] <= s[j]);
                }
                if mid == 0 {
                    proof {
                        if s.contains(*e as int) {
                            let j = choose|j: int| 0 <= j < s.len() && s[j] == *e;
                        }
                    }
                    return false;
                }
                high = mid - 1;
            }
        }
        proof {
            if s.contains(*e as int) {
                let j = choose|j: int| 0 <= j < s.len() && s[j] == *e;
            }
        }
        false
    }
}

} // verus!
