use vstd::prelude::*;

verus! {

/// Order statistics of a sequence of values, compared by the strict order
/// `precedes`. Each statistic is absent exactly when the sequence is empty; a
/// position ties to the first occurrence.
pub trait Ordered<T> {
    type Index;

    /// The values, in order.
    spec fn items(&self) -> Seq<T>;

    /// `a` comes strictly before `b` in the order.
    spec fn precedes(a: T, b: T) -> bool;

    /// The position that an index denotes.
    spec fn position(i: Self::Index) -> int;

    /// `v` is a smallest value of `s`.
    open spec fn is_min_of(s: Seq<T>, v: T) -> bool {
        &&& s.contains(v)
        &&& forall|i: int| 0 <= i < s.len() ==> !Self::precedes(s[i], v)
    }

    /// `v` is a largest value of `s`.
    open spec fn is_max_of(s: Seq<T>, v: T) -> bool {
        &&& s.contains(v)
        &&& forall|i: int| 0 <= i < s.len() ==> !Self::precedes(v, s[i])
    }

    /// `j` is the first position of a smallest value of `s`.
    open spec fn is_first_min(s: Seq<T>, j: int) -> bool {
        &&& 0 <= j < s.len()
        &&& forall|i: int| 0 <= i < s.len() ==> !Self::precedes(s[i], s[j])
        &&& forall|i: int| 0 <= i < j ==> Self::precedes(s[j], s[i])
    }

    /// `j` is the first position of a largest value of `s`.
    open spec fn is_first_max(s: Seq<T>, j: int) -> bool {
        &&& 0 <= j < s.len()
        &&& forall|i: int| 0 <= i < s.len() ==> !Self::precedes(s[j], s[i])
        &&& forall|i: int| 0 <= i < j ==> Self::precedes(s[i], s[j])
    }

    fn min(&self) -> (r: Option<&T>)
        ensures
            r is None <==> self.items().len() == 0,
            r matches Some(v) ==> Self::is_min_of(self.items(), *v),
    ;

    fn max(&self) -> (r: Option<&T>)
        ensures
            r is None <==> self.items().len() == 0,
            r matches Some(v) ==> Self::is_max_of(self.items(), *v),
    ;

    fn min_max(&self) -> (r: Option<(&T, &T)>)
        ensures
            r is None <==> self.items().len() == 0,
            r matches Some(p) ==> Self::is_min_of(self.items(), *p.0) && Self::is_max_of(
                self.items(),
                *p.1,
            ),
    ;

    fn argmin(&self) -> (r: Option<Self::Index>)
        ensures
            r is None <==> self.items().len() == 0,
            r matches Some(j) ==> Self::is_first_min(self.items(), Self::position(j)),
    ;

    fn argmax(&self) -> (r: Option<Self::Index>)
        ensures
            r is None <==> self.items().len() == 0,
            r matches Some(j) ==> Self::is_first_max(self.items(), Self::position(j)),
    ;
}

impl Ordered<u64> for Vec<u64> {
    type Index = usize;

    open spec fn items(&self) -> Seq<u64> {
        self@
    }

    open spec fn precedes(a: u64, b: u64) -> bool {
        a < b
    }

    open spec fn position(i: usize) -> int {
        i as int
    }

    fn min(&self) -> (r: Option<&u64>) {
        match self.argmin() {
            Some(j) => Some(&self[j]),
            None => None,
        }
    }

    fn max(&self) -> (r: Option<&u64>) {
        match self.argmax() {
            Some(j) => Some(&self[j]),
            None => None,
        }
    }

    fn min_max(&self) -> (r: Option<(&u64, &u64)>) {
        if self.len() == 0 {
            return None;
        }
        let mut lo: usize = 0;
        let mut hi: usize = 0;
        let mut i: usize = 1;
        while i < self.len()
            invariant
                1 <= i <= self@.len(),
                lo < i,
                hi < i,
                forall|k: int| 0 <= k < i ==> self@[lo as int] <= #[trigger] self@[k] <= self@[hi as int],
            decreases self@.len() - i,
        {
            if self[i] < self[lo] {
                lo = i;
            } else if self[i] > self[hi] {
                hi = i;
            }
            i = i + 1;
        }
        Some((&self[lo], &self[hi]))
    }

    fn argmin(&self) -> (r: Option<usize>) {
        if self.len() == 0 {
            return None;
        }
        let mut index: usize = 0;
        let mut i: usize = 1;
        while i < self.len()
            invariant
                1 <= i <= self@.len(),
                index < i,
                forall|k: int| 0 <= k < i ==> self@[index as int] <= self@[k],
                forall|k: int| 0 <= k < index ==> self@[index as int] < self@[k],
            decreases self@.len() - i,
        {
            if self[i] < self[index] {
                index = i;
            }
            i = i + 1;
        }
        Some(index)
    }

    fn argmax(&self) -> (r: Option<usize>) {
        if self.len() == 0 {
            return None;
        }
        let mut index: usize = 0;
        let mut i: usize = 1;
        while i < self.len()
            invariant
                1 <= i <= self@.len(),
                index < i,
                forall|k: int| 0 <= k < i ==> self@[k] <= self@[index as int],
                forall|k: int| 0 <= k < index ==> self@[k] < self@[index as int],
            decreases self@.len() - i,
        {
            if self[i] > self[index] {
                index = i;
            }
            i = i + 1;
        }
        Some(index)
    }
}

} // verus!
