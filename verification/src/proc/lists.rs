//! Singly linked lists threaded through a fixed table of nodes: the ready
//! queues and the queues of blocked senders. A node is a table index and is
//! in at most one list of the same `Lists`.
use vstd::prelude::*;

verus! {

/// `s` without its entry `x`, if it has one.
pub open spec fn without(s: Seq<int>, x: int) -> Seq<int> {
    if s.contains(x) {
        s.remove(s.index_of(x))
    } else {
        s
    }
}

/// The first entry of the first non-empty list at or after list `l`.
pub open spec fn front_from(lists: Seq<Seq<int>>, l: int) -> Option<int>
    decreases lists.len() - l,
{
    if l < 0 || l >= lists.len() {
        None
    } else if lists[l].len() > 0 {
        Some(lists[l][0])
    } else {
        front_from(lists, l + 1)
    }
}

/// The first entry of the first non-empty list.
pub open spec fn front(lists: Seq<Seq<int>>) -> Option<int> {
    front_from(lists, 0)
}

/// Whether `x` is an entry of some list.
pub open spec fn listed(lists: Seq<Seq<int>>, x: int) -> bool {
    exists|l: int, k: int|
        0 <= l < lists.len() && 0 <= k < lists[l].len() && #[trigger] lists[l][k] == x
}

/// No node occurs twice, in one list or in two.
pub open spec fn distinct(lists: Seq<Seq<int>>) -> bool {
    forall|l: int, k: int, m: int, n: int|
        #![trigger lists[l][k], lists[m][n]]
        0 <= l < lists.len() && 0 <= k < lists[l].len() && 0 <= m < lists.len() && 0 <= n
            < lists[m].len() && lists[l][k] == lists[m][n] ==> l == m && k == n
}

/// Some index as an option of table index.
pub open spec fn as_int(x: Option<usize>) -> Option<int> {
    match x {
        Some(i) => Some(i as int),
        None => None,
    }
}

pub struct Lists {
    head: Vec<Option<usize>>,
    tail: Vec<Option<usize>>,
    next: Vec<Option<usize>>,
    entries: Ghost<Seq<Seq<int>>>,
}

impl View for Lists {
    type V = Seq<Seq<int>>;

    closed spec fn view(&self) -> Seq<Seq<int>> {
        self.entries@
    }
}

impl Lists {
    /// How many nodes the links cover.
    pub closed spec fn nodes(&self) -> nat {
        self.next@.len()
    }

    /// The links spell out exactly the lists of the view.
    pub closed spec fn wf(&self) -> bool {
        let lists = self.entries@;
        &&& self.head@.len() == lists.len()
        &&& self.tail@.len() == lists.len()
        &&& distinct(lists)
        &&& forall|l: int|
            #![trigger lists[l]]
            0 <= l < lists.len() ==> {
                &&& lists[l].len() == 0 ==> self.head@[l] is None && self.tail@[l] is None
                &&& lists[l].len() > 0 ==> as_int(self.head@[l]) == Some(lists[l][0])
                &&& lists[l].len() > 0 ==> as_int(self.tail@[l]) == Some(lists[l].last())
            }
        &&& forall|l: int, k: int|
            #![trigger lists[l][k]]
            0 <= l < lists.len() && 0 <= k < lists[l].len() ==> {
                &&& 0 <= lists[l][k] < self.next@.len()
                &&& as_int(self.next@[lists[l][k]]) == (if k + 1 < lists[l].len() {
                    Some(lists[l][k + 1])
                } else {
                    None
                })
            }
    }

    /// `lists` empty lists over `nodes` nodes.
    pub fn new(lists: usize, nodes: usize) -> (r: Lists)
        ensures
            r.wf(),
            r.nodes() == nodes,
            r@ == Seq::new(lists as nat, |l: int| Seq::<int>::empty()),
    {
        let mut head: Vec<Option<usize>> = Vec::new();
        let mut tail: Vec<Option<usize>> = Vec::new();
        let mut l: usize = 0;
        while l < lists
            invariant
                l <= lists,
                head@.len() == l,
                tail@.len() == l,
                forall|i: int| 0 <= i < l ==> head@[i] is None && tail@[i] is None,
            decreases lists - l,
        {
            head.push(None);
            tail.push(None);
            l = l + 1;
        }
        let mut next: Vec<Option<usize>> = Vec::new();
        let mut n: usize = 0;
        while n < nodes
            invariant
                n <= nodes,
                next@.len() == n,
            decreases nodes - n,
        {
            next.push(None);
            n = n + 1;
        }
        Lists {
            head,
            tail,
            next,
            entries: Ghost(Seq::new(lists as nat, |l: int| Seq::<int>::empty())),
        }
    }

    /// Append node `i` to list `l`.
    #[verifier::rlimit(50)]
    pub fn push_back(&mut self, l: usize, i: usize)
        requires
            old(self).wf(),
            l < old(self)@.len(),
            i < old(self).nodes(),
            !listed(old(self)@, i as int),
        ensures
            final(self).wf(),
            final(self).nodes() == old(self).nodes(),
            final(self)@ == old(self)@.update(l as int, old(self)@[l as int].push(i as int)),
    {
        let ghost lists = self.entries@;
        let ghost now = lists.update(l as int, lists[l as int].push(i as int));
        self.next[i] = None;
        match self.tail[l] {
            Some(t) => {
                assert(lists[l as int].len() > 0 && t == lists[l as int][lists[l as int].len() - 1]);
                self.next[t] = Some(i);
            },
            None => {
                self.head[l] = Some(i);
            },
        }
        self.tail[l] = Some(i);
        self.entries = Ghost(now);
        proof {
            assert forall|a: int, b: int|
                0 <= a < lists.len() && 0 <= b < lists[a].len() implies #[trigger] lists[a][b] != i by {
            }
            assert forall|a: int, b: int, c: int, d: int|
                #![trigger now[a][b], now[c][d]]
                0 <= a < now.len() && 0 <= b < now[a].len() && 0 <= c < now.len() && 0 <= d
                    < now[c].len() && now[a][b] == now[c][d] implies a == c && b == d by {
                if b < lists[a].len() {
                    assert(now[a][b] == lists[a][b]);
                }
                if d < lists[c].len() {
                    assert(now[c][d] == lists[c][d]);
                }
            }
            assert forall|a: int, b: int|
                #![trigger now[a][b]]
                0 <= a < now.len() && 0 <= b < now[a].len() implies {
                &&& 0 <= now[a][b] < self.next@.len()
                &&& as_int(self.next@[now[a][b]]) == (if b + 1 < now[a].len() {
                    Some(now[a][b + 1])
                } else {
                    None
                })
            } by {
                if b < lists[a].len() {
                    assert(now[a][b] == lists[a][b]);
                    if b + 1 < lists[a].len() {
                        assert(now[a][b + 1] == lists[a][b + 1]);
                    }
                    if lists[l as int].len() > 0 {
                        let last = lists[l as int][lists[l as int].len() - 1];
                        if lists[a][b] == last {
                            assert(a == l && b == lists[l as int].len() - 1);
                        }
                    }
                }
            }
        }
    }

    /// Put node `i` at the front of list `l`.
    pub fn push_front(&mut self, l: usize, i: usize)
        requires
            old(self).wf(),
            l < old(self)@.len(),
            i < old(self).nodes(),
            !listed(old(self)@, i as int),
        ensures
            final(self).wf(),
            final(self).nodes() == old(self).nodes(),
            final(self)@ == old(self)@.update(
                l as int,
                seq![i as int] + old(self)@[l as int],
            ),
    {
        let ghost lists = self.entries@;
        let ghost now = lists.update(l as int, seq![i as int] + lists[l as int]);
        let first = self.head[l];
        self.next[i] = first;
        if first.is_none() {
            self.tail[l] = Some(i);
        }
        self.head[l] = Some(i);
        self.entries = Ghost(now);
        proof {
            assert forall|a: int, b: int|
                0 <= a < lists.len() && 0 <= b < lists[a].len() implies #[trigger] lists[a][b] != i by {
            }
            assert forall|a: int, b: int, c: int, d: int|
                #![trigger now[a][b], now[c][d]]
                0 <= a < now.len() && 0 <= b < now[a].len() && 0 <= c < now.len() && 0 <= d
                    < now[c].len() && now[a][b] == now[c][d] implies a == c && b == d by {
                let b0 = if a == l { b - 1 } else { b };
                let d0 = if c == l { d - 1 } else { d };
                if b0 >= 0 {
                    assert(now[a][b] == lists[a][b0]);
                }
                if d0 >= 0 {
                    assert(now[c][d] == lists[c][d0]);
                }
            }
            assert forall|a: int, b: int|
                #![trigger now[a][b]]
                0 <= a < now.len() && 0 <= b < now[a].len() implies {
                &&& 0 <= now[a][b] < self.next@.len()
                &&& as_int(self.next@[now[a][b]]) == (if b + 1 < now[a].len() {
                    Some(now[a][b + 1])
                } else {
                    None
                })
            } by {
                let b0 = if a == l { b - 1 } else { b };
                if b0 >= 0 {
                    assert(now[a][b] == lists[a][b0]);
                    if b0 + 1 < lists[a].len() {
                        assert(now[a][b + 1] == lists[a][b0 + 1]);
                    }
                } else {
                    assert(now[a][b] == i);
                    if lists[a].len() > 0 {
                        assert(now[a][b + 1] == lists[a][0]);
                    }
                }
            }
        }
    }

    /// Take node `i` out of list `l`, if it is there.
    #[verifier::rlimit(50)]
    pub fn remove(&mut self, l: usize, i: usize)
        requires
            old(self).wf(),
            l < old(self)@.len(),
        ensures
            final(self).wf(),
            final(self).nodes() == old(self).nodes(),
            final(self)@ == old(self)@.update(l as int, without(old(self)@[l as int], i as int)),
    {
        let ghost lists = self.entries@;
        let ghost list = lists[l as int];
        let ghost mut k: int = 0;
        let mut prev: Option<usize> = None;
        let mut cursor: Option<usize> = self.head[l];
        let mut found: bool = false;
        while cursor.is_some() && !found
            invariant
                self.wf(),
                lists == self.entries@,
                l < lists.len(),
                list == lists[l as int],
                0 <= k <= list.len(),
                found ==> k < list.len() && list[k] == i,
                as_int(cursor) == (if k < list.len() {
                    Some(list[k])
                } else {
                    None
                }),
                as_int(prev) == (if k > 0 {
                    Some(list[k - 1])
                } else {
                    None
                }),
                forall|j: int| 0 <= j < k ==> list[j] != i,
            decreases list.len() - k + (if found { 0int } else { 1 }),
        {
            let cur: usize = cursor.unwrap();
            assert(lists[l as int][k] == cur);
            if cur == i {
                found = true;
            } else {
                prev = cursor;
                cursor = self.next[cur];
                proof {
                    k = k + 1;
                }
            }
        }
        if found {
            self.unlink(l, i, prev, Ghost(k));
            proof {
                assert(list.contains(i as int));
                let at = list.index_of(i as int);
                assert(lists[l as int][at] == lists[l as int][k]);
                assert(at == k);
            }
        } else {
            assert(!list.contains(i as int));
            assert(lists.update(l as int, list) =~= lists);
        }
    }

    /// Take node `i`, entry `k` of list `l`, out; `prev` is the entry before.
    #[verifier::rlimit(50)]
    fn unlink(&mut self, l: usize, i: usize, prev: Option<usize>, Ghost(k): Ghost<int>)
        requires
            old(self).wf(),
            l < old(self)@.len(),
            0 <= k < old(self)@[l as int].len(),
            old(self)@[l as int][k] == i,
            as_int(prev) == (if k > 0 {
                Some(old(self)@[l as int][k - 1])
            } else {
                None
            }),
        ensures
            final(self).wf(),
            final(self).nodes() == old(self).nodes(),
            final(self)@ == old(self)@.update(l as int, old(self)@[l as int].remove(k)),
    {
        let ghost lists = self.entries@;
        let ghost list = lists[l as int];
        let after = self.next[i];
        match prev {
            Some(p) => {
                assert(lists[l as int][k - 1] == p);
                self.next[p] = after;
            },
            None => {
                self.head[l] = after;
            },
        }
        if after.is_none() {
            self.tail[l] = prev;
        }
        proof {
            let now = lists.update(l as int, list.remove(k));
            self.entries = Ghost(now);
            assert forall|a: int, b: int|
                #![trigger now[a][b]]
                0 <= a < now.len() && 0 <= b < now[a].len() implies now[a][b] == lists[a][if a == l
                && b >= k {
                b + 1
            } else {
                b
            }] by {
            }
            assert forall|a: int, b: int, c: int, d: int|
                #![trigger now[a][b], now[c][d]]
                0 <= a < now.len() && 0 <= b < now[a].len() && 0 <= c < now.len() && 0 <= d
                    < now[c].len() && now[a][b] == now[c][d] implies a == c && b == d by {
                let b0 = if a == l && b >= k { b + 1 } else { b };
                let d0 = if c == l && d >= k { d + 1 } else { d };
                assert(now[a][b] == lists[a][b0]);
                assert(now[c][d] == lists[c][d0]);
            }
            assert forall|a: int, b: int|
                #![trigger now[a][b]]
                0 <= a < now.len() && 0 <= b < now[a].len() implies {
                &&& 0 <= now[a][b] < self.next@.len()
                &&& as_int(self.next@[now[a][b]]) == (if b + 1 < now[a].len() {
                    Some(now[a][b + 1])
                } else {
                    None
                })
            } by {
                let b0 = if a == l && b >= k { b + 1 } else { b };
                assert(now[a][b] == lists[a][b0]);
                if b + 1 < now[a].len() {
                    let n0 = if a == l && b + 1 >= k { b + 2 } else { b + 1 };
                    assert(now[a][b + 1] == lists[a][n0]);
                }
                if k > 0 && lists[a][b0] == lists[l as int][k - 1] {
                    assert(a == l && b0 == k - 1);
                }
            }
            assert forall|a: int|
                #![trigger now[a]]
                0 <= a < now.len() implies {
                &&& now[a].len() == 0 ==> self.head@[a] is None && self.tail@[a] is None
                &&& now[a].len() > 0 ==> as_int(self.head@[a]) == Some(now[a][0])
                &&& now[a].len() > 0 ==> as_int(self.tail@[a]) == Some(now[a].last())
            } by {
                assert(lists[a].len() > 0 ==> lists[a][0] == lists[a][0]);
            }
        }
    }

    /// Drop every entry of list `l`.
    pub fn clear(&mut self, l: usize)
        requires
            old(self).wf(),
            l < old(self)@.len(),
        ensures
            final(self).wf(),
            final(self).nodes() == old(self).nodes(),
            final(self)@ == old(self)@.update(l as int, Seq::empty()),
    {
        let ghost lists = self.entries@;
        self.head[l] = None;
        self.tail[l] = None;
        proof {
            let now = lists.update(l as int, Seq::<int>::empty());
            self.entries = Ghost(now);
            assert forall|a: int, b: int|
                0 <= a < now.len() && 0 <= b < now[a].len() implies #[trigger] now[a][b]
                == lists[a][b] by {
            }
            assert forall|a: int, b: int|
                #![trigger now[a][b]]
                0 <= a < now.len() && 0 <= b < now[a].len() implies {
                &&& 0 <= now[a][b] < self.next@.len()
                &&& as_int(self.next@[now[a][b]]) == (if b + 1 < now[a].len() {
                    Some(now[a][b + 1])
                } else {
                    None
                })
            } by {
                assert(now[a][b] == lists[a][b]);
                if b + 1 < now[a].len() {
                    assert(now[a][b + 1] == lists[a][b + 1]);
                }
            }
        }
    }

    /// The first entry of list `l`.
    pub fn first(&self, l: usize) -> (r: Option<usize>)
        requires
            self.wf(),
            l < self@.len(),
        ensures
            as_int(r) == (if self@[l as int].len() > 0 {
                Some(self@[l as int][0])
            } else {
                None
            }),
            r matches Some(i) ==> i < self.nodes(),
    {
        assert(self.entries@[l as int].len() > 0 ==> self.entries@[l as int][0] >= 0);
        self.head[l]
    }

    /// The entry after node `i`, which is entry `k` of list `l`.
    pub fn following(&self, i: usize, Ghost(l): Ghost<int>, Ghost(k): Ghost<int>) -> (r: Option<usize>)
        requires
            self.wf(),
            0 <= l < self@.len(),
            0 <= k < self@[l].len(),
            self@[l][k] == i,
        ensures
            as_int(r) == (if k + 1 < self@[l].len() {
                Some(self@[l][k + 1])
            } else {
                None
            }),
            r matches Some(j) ==> j < self.nodes(),
    {
        assert(k + 1 < self.entries@[l].len() ==> self.entries@[l][k + 1] >= 0);
        self.next[i]
    }

    /// The first entry of the first non-empty list.
    pub fn pick(&self) -> (r: Option<usize>)
        requires
            self.wf(),
        ensures
            as_int(r) == front(self@),
            r matches Some(i) ==> i < self.nodes(),
    {
        let mut l: usize = 0;
        while l < self.head.len()
            invariant
                self.wf(),
                l <= self@.len(),
                self.head@.len() == self@.len(),
                front(self@) == front_from(self@, l as int),
            decreases self.head@.len() - l,
        {
            let h = self.first(l);
            if h.is_some() {
                return h;
            }
            l = l + 1;
        }
        None
    }

    /// Every entry of every list is a node, and none occurs twice.
    pub proof fn entries_are_nodes(&self)
        requires
            self.wf(),
        ensures
            distinct(self@),
            forall|l: int, k: int|
                0 <= l < self@.len() && 0 <= k < self@[l].len() ==> 0 <= #[trigger] self@[l][k]
                    < self.nodes(),
    {
    }
}

} // verus!
