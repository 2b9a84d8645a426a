//! A stack with nested snapshots.

use vstd::prelude::*;

verus! {

/// The index that a signed index `i` denotes in a stack of `len` entries.
///
/// An index from `0` to `len` counts from the bottom. A negative index
/// counts back from the top, `-len` being the bottom. Anything else denotes
/// nothing.
pub open spec fn resolve_index(i: int, len: nat) -> Option<nat> {
    if 0 <= i <= len {
        Some(i as nat)
    } else if -(len as int) <= i < 0 {
        Some((len + i) as nat)
    } else {
        None
    }
}

/// The bounds that a signed range denotes in a stack of `len` entries. A
/// range without an end reaches to the top.
pub open spec fn resolve_range(start: int, end: Option<int>, len: nat) -> Option<(nat, nat)> {
    match (
        resolve_index(start, len),
        match end {
            Some(e) => resolve_index(e, len),
            None => Some(len),
        },
    ) {
        (Some(lo), Some(hi)) => Some((lo, hi)),
        _ => None,
    }
}

/// The entries that lie between two resolved bounds; none where the bounds
/// are reversed.
pub open spec fn between<T>(entries: Seq<T>, bounds: (nat, nat)) -> Seq<T> {
    if bounds.0 < bounds.1 <= entries.len() {
        entries.subrange(bounds.0 as int, bounds.1 as int)
    } else {
        Seq::empty()
    }
}

/// The first `len` of `entries`, or all of them where there are fewer.
pub open spec fn truncated<T>(entries: Seq<T>, len: nat) -> Seq<T> {
    if len <= entries.len() {
        entries.take(len as int)
    } else {
        entries
    }
}

/// Resolves one signed index against a stack length.
pub fn normalize_index(i: i32, len: usize) -> (res: Option<usize>)
    ensures
        res is Some <==> resolve_index(i as int, len as nat) is Some,
        res matches Some(n) ==> resolve_index(i as int, len as nat) == Some(n as nat) && n <= len,
{
    if i >= 0 {
        let up: usize = i as usize;
        if up <= len {
            Some(up)
        } else {
            None
        }
    } else {
        let back: usize = (-(i as i64)) as usize;
        if back <= len {
            Some(len - back)
        } else {
            None
        }
    }
}

/// Resolves a signed range against a stack length.
pub fn constrain_idxs(start: i32, end: Option<i32>, len: usize) -> (res: Option<(usize, usize)>)
    ensures
        res is Some <==> resolve_range(start as int, signed(end), len as nat) is Some,
        res matches Some(r) ==> resolve_range(start as int, signed(end), len as nat) == Some(
            (r.0 as nat, r.1 as nat),
        ) && r.0 <= len && r.1 <= len,
{
    let lo = match normalize_index(start, len) {
        Some(lo) => lo,
        None => {
            return None;
        },
    };
    let hi = match end {
        Some(e) => match normalize_index(e, len) {
            Some(hi) => hi,
            None => {
                return None;
            },
        },
        None => len,
    };
    Some((lo, hi))
}

/// An optional machine integer as an optional mathematical one.
pub open spec fn signed(end: Option<i32>) -> Option<int> {
    match end {
        Some(e) => Some(e as int),
        None => None,
    }
}

/// A signed range that denotes nothing in a stack of `len` entries.
#[derive(Clone, Copy, Debug, PartialEq, Eq, Hash)]
pub struct OutOfBound {
    pub start: i32,
    pub end: Option<i32>,
    pub len: usize,
}

/// A stack whose length can be saved and brought back.
///
/// Beside its entries the stack keeps a list of markers, each the length
/// that the stack had when a snapshot was taken. Markers are resolved last
/// in, first out.
#[derive(Debug)]
pub struct Stack<T> {
    items: Vec<T>,
    snapshots: Vec<usize>,
}

impl<T> View for Stack<T> {
    type V = Seq<T>;

    /// The entries, the bottom first.
    closed spec fn view(&self) -> Seq<T> {
        self.items@
    }
}

impl<T> Stack<T> {
    /// The saved lengths, the oldest first.
    pub closed spec fn markers(&self) -> Seq<nat> {
        self.snapshots@.map_values(|m: usize| m as nat)
    }

    /// A stack without entries and without markers.
    pub fn new() -> (res: Stack<T>)
        ensures
            res@ == Seq::<T>::empty(),
            res.markers() == Seq::<nat>::empty(),
    {
        let res = Stack { items: Vec::new(), snapshots: Vec::new() };
        res
    }

    /// Number of entries.
    pub fn len(&self) -> (res: usize)
        ensures
            res == self@.len(),
    {
        self.items.len()
    }

    /// Whether the stack has no entry.
    pub fn is_empty(&self) -> (res: bool)
        ensures
            res == (self@.len() == 0),
    {
        self.items.len() == 0
    }

    /// Number of snapshots that are open.
    pub fn depth(&self) -> (res: usize)
        ensures
            res == self.markers().len(),
    {
        self.snapshots.len()
    }

    /// Puts `entry` on top.
    pub fn push(&mut self, entry: T)
        ensures
            final(self)@ == old(self)@.push(entry),
            final(self).markers() == old(self).markers(),
    {
        self.items.push(entry);
    }

    /// Takes the top entry off, where there is one.
    pub fn pop(&mut self) -> (res: Option<T>)
        ensures
            final(self).markers() == old(self).markers(),
            old(self)@.len() == 0 ==> res is None && final(self)@ == old(self)@,
            old(self)@.len() > 0 ==> res == Some(old(self)@.last()) && final(self)@ == old(
                self,
            )@.drop_last(),
    {
        self.items.pop()
    }

    /// The top entry, where there is one.
    pub fn peek(&self) -> (res: Option<&T>)
        ensures
            self@.len() == 0 ==> res is None,
            self@.len() > 0 ==> res == Some(&self@.last()),
    {
        let n = self.items.len();
        if n == 0 {
            None
        } else {
            Some(&self.items[n - 1])
        }
    }

    /// All entries, the bottom first.
    pub fn as_slice(&self) -> (res: &[T])
        ensures
            res@ == self@,
    {
        self.items.as_slice()
    }

    /// The entries that a signed range denotes, the lowest first.
    pub fn slice(&self, start: i32, end: Option<i32>) -> (res: Result<&[T], OutOfBound>)
        ensures
            match resolve_range(start as int, signed(end), self@.len()) {
                Some(bounds) => res matches Ok(entries) && entries@ == between(self@, bounds),
                None => res == Err::<&[T], OutOfBound>(
                    OutOfBound { start, end, len: self@.len() as usize },
                ),
            },
    {
        let len = self.items.len();
        match constrain_idxs(start, end, len) {
            Some((lo, hi)) => {
                let all = self.items.as_slice();
                if hi <= lo {
                    let none = vstd::slice::slice_subrange(all, 0, 0);
                    Ok(none)
                } else {
                    Ok(vstd::slice::slice_subrange(all, lo, hi))
                }
            },
            None => Err(OutOfBound { start, end, len }),
        }
    }

    /// Removes every entry and keeps the markers.
    pub fn clear(&mut self)
        ensures
            final(self)@ == Seq::<T>::empty(),
            final(self).markers() == old(self).markers(),
    {
        self.items.clear();
    }

    /// Saves the current length as a new marker.
    pub fn snapshot(&mut self)
        ensures
            final(self)@ == old(self)@,
            final(self).markers() == old(self).markers().push(old(self)@.len()),
    {
        let len = self.items.len();
        self.snapshots.push(len);
    }

    /// Takes the newest marker off and keeps the entries as they are.
    pub fn clear_snapshot(&mut self)
        requires
            old(self).markers().len() > 0,
        ensures
            final(self)@ == old(self)@,
            final(self).markers() == old(self).markers().drop_last(),
    {
        self.snapshots.pop();
    }

    /// Takes the newest marker off and cuts the stack back to the length
    /// that the marker saved. Entries pushed since the snapshot are gone; a
    /// stack that is shorter by now stays as it is.
    pub fn restore(&mut self)
        requires
            old(self).markers().len() > 0,
        ensures
            final(self)@ == truncated(old(self)@, old(self).markers().last()),
            final(self).markers() == old(self).markers().drop_last(),
    {
        match self.snapshots.pop() {
            Some(len) => {
                self.items.truncate(len);
            },
            None => {},
        }
    }
}

} // verus!
