//! The tuples of header-bit positions that a run examines, and the generator
//! that yields them one by one.

use crate::data_structures::AddressView;
use vstd::prelude::*;
use vstd::seq_lib::lemma_seq_concat_contains_all_elements;

verus! {

/// The tuples that a depth-first search still yields below `prefix`: those that
/// extend it by `more` strictly increasing positions, the first of them at or after
/// `next`, all before `header_length`. The first position of a tuple lies at or before
/// `end_bit`. Tuples come in lexicographic order.
pub open spec fn tuples_from(
    prefix: Seq<u16>,
    next: int,
    more: nat,
    end_bit: int,
    header_length: int,
) -> Seq<Seq<u16>>
    decreases more, header_length - next,
{
    if more == 0 {
        seq![prefix]
    } else if next >= header_length || (prefix.len() == 0 && next > end_bit) {
        Seq::empty()
    } else {
        tuples_from(prefix.push(next as u16), next + 1, (more - 1) as nat, end_bit, header_length)
            + tuples_from(prefix, next + 1, more, end_bit, header_length)
    }
}

/// Every tuple of a search, in the order in which it is yielded.
pub open spec fn all_tuples(start_bit: u16, end_bit: u16, header_length: u16, tuple_size: u16) -> Seq<
    Seq<u16>,
> {
    tuples_from(
        Seq::empty(),
        start_bit as int,
        tuple_size as nat,
        end_bit as int,
        header_length as int,
    )
}

/// `t` extends `prefix` by `more` strictly increasing positions in
/// `[next, header_length)`; a first position also lies at or before `end_bit`.
pub open spec fn extends(
    t: Seq<u16>,
    prefix: Seq<u16>,
    next: int,
    more: nat,
    end_bit: int,
    header_length: int,
) -> bool {
    &&& t.len() == prefix.len() + more
    &&& forall|i: int| 0 <= i < prefix.len() ==> #[trigger] t[i] == prefix[i]
    &&& forall|i: int, j: int| prefix.len() <= i < j < t.len() ==> t[i] < t[j]
    &&& forall|i: int| prefix.len() <= i < t.len() ==> next <= #[trigger] t[i] < header_length
    &&& (prefix.len() == 0 && more > 0) ==> t[0] <= end_bit
}

/// A tuple that the search is to examine: `tuple_size` strictly increasing
/// positions of the header, the first of them in `[start_bit, end_bit]`.
pub open spec fn valid_tuple(
    t: Seq<u16>,
    start_bit: u16,
    end_bit: u16,
    header_length: u16,
    tuple_size: u16,
) -> bool {
    &&& t.len() == tuple_size
    &&& forall|i: int, j: int| 0 <= i < j < t.len() ==> t[i] < t[j]
    &&& forall|i: int| 0 <= i < t.len() ==> #[trigger] t[i] < header_length
    &&& tuple_size > 0 ==> start_bit <= t[0] <= end_bit
}

/// `a` comes before `b` in lexicographic order: at the first position at which
/// they differ, `a` holds the smaller value.
pub open spec fn comes_before(a: Seq<u16>, b: Seq<u16>) -> bool {
    exists|k: int|
        0 <= k < a.len() && k < b.len() && #[trigger] a.take(k) =~= b.take(k) && a[k] < b[k]
}

/// The addresses of one tuple: the tuple with each nonce bit in turn.
pub open spec fn fan_out(tuple: Seq<u16>, nonce_length: nat) -> Seq<AddressView> {
    Seq::new(nonce_length, |bit: int| AddressView { header_bits: tuple, nonce_bit: bit as u8 })
}

/// The addresses of the tuples, tuple by tuple.
pub open spec fn addresses_for(tuples: Seq<Seq<u16>>, nonce_length: nat) -> Seq<AddressView>
    decreases tuples.len(),
{
    if tuples.len() == 0 {
        Seq::empty()
    } else {
        addresses_for(tuples.drop_last(), nonce_length) + fan_out(tuples.last(), nonce_length)
    }
}

/// Every address of a search, in the order in which it is yielded.
pub open spec fn all_addresses(
    start_bit: u16,
    end_bit: u16,
    header_length: u16,
    nonce_length: u8,
    tuple_size: u16,
) -> Seq<AddressView> {
    addresses_for(
        all_tuples(start_bit, end_bit, header_length, tuple_size),
        nonce_length as nat,
    )
}

/// An address that the search is to examine: a valid tuple and a position of the
/// nonce.
pub open spec fn valid_address(
    address: AddressView,
    start_bit: u16,
    end_bit: u16,
    header_length: u16,
    nonce_length: u8,
    tuple_size: u16,
) -> bool {
    &&& valid_tuple(address.header_bits, start_bit, end_bit, header_length, tuple_size)
    &&& address.nonce_bit < nonce_length
}

/// The tuples that the search yields once it has left the subtree below
/// `stack`: for each position of the stack, innermost first, those below its
/// later siblings.
pub open spec fn pending_after(
    stack: Seq<u16>,
    tuple_size: nat,
    end_bit: int,
    header_length: int,
) -> Seq<Seq<u16>>
    decreases stack.len(),
{
    if stack.len() == 0 {
        Seq::empty()
    } else {
        tuples_from(
            stack.drop_last(),
            stack.last() + 1,
            (tuple_size - stack.len() + 1) as nat,
            end_bit,
            header_length,
        ) + pending_after(stack.drop_last(), tuple_size, end_bit, header_length)
    }
}

/// Nothing is yielded below `prefix` once fewer positions are left than the
/// tuple still needs, or once a first position would lie behind `end_bit`.
pub proof fn lemma_tuples_from_exhausted(
    prefix: Seq<u16>,
    next: int,
    more: nat,
    end_bit: int,
    header_length: int,
)
    requires
        more > 0,
        next + more > header_length || (prefix.len() == 0 && next > end_bit),
    ensures
        tuples_from(prefix, next, more, end_bit, header_length) == Seq::<Seq<u16>>::empty(),
    decreases more, header_length - next,
{
    if next >= header_length || (prefix.len() == 0 && next > end_bit) {
    } else {
        lemma_tuples_from_exhausted(
            prefix.push(next as u16),
            next + 1,
            (more - 1) as nat,
            end_bit,
            header_length,
        );
        lemma_tuples_from_exhausted(prefix, next + 1, more, end_bit, header_length);
    }
}

/// A generator of the tuples of a search, in lexicographic order. It holds the
/// path of the depth-first search and the position to try next at its end.
pub struct TupleEnumerator {
    end_bit: u16,
    header_length: u16,
    tuple_size: u16,
    stack: Vec<u16>,
    next: u16,
    finished: bool,
}

impl TupleEnumerator {
    /// The path fits the tuple size and stays inside the header.
    spec fn fits(&self) -> bool {
        &&& self.stack@.len() <= self.tuple_size
        &&& forall|i: int| 0 <= i < self.stack@.len() ==> #[trigger] self.stack@[i] < self.header_length
    }

    /// Between two calls the path is a proper prefix of a tuple, inside the header.
    pub closed spec fn well_formed(&self) -> bool {
        &&& self.fits()
        &&& self.stack@.len() < self.tuple_size || self.tuple_size == 0
    }

    /// The tuples that are still to come, in order.
    pub closed spec fn remaining(&self) -> Seq<Seq<u16>> {
        if self.finished {
            Seq::empty()
        } else {
            tuples_from(
                self.stack@,
                self.next as int,
                (self.tuple_size - self.stack@.len()) as nat,
                self.end_bit as int,
                self.header_length as int,
            ) + pending_after(
                self.stack@,
                self.tuple_size as nat,
                self.end_bit as int,
                self.header_length as int,
            )
        }
    }

    /// No position is left at the current depth: too few remain to complete a
    /// tuple, or a first position would lie behind `end_bit`.
    spec fn exhausted(&self) -> bool {
        &&& self.stack@.len() < self.tuple_size
        &&& {
            ||| self.next + (self.tuple_size - self.stack@.len()) > self.header_length
            ||| (self.stack@.len() == 0 && self.next > self.end_bit)
        }
    }

    /// A generator for the tuples of `tuple_size` positions in a header of
    /// `header_length` bits whose first position lies in `[start_bit, end_bit]`.
    pub fn new(start_bit: u16, end_bit: u16, header_length: u16, tuple_size: u16) -> (e: Self)
        ensures
            e.well_formed(),
            e.remaining() == all_tuples(start_bit, end_bit, header_length, tuple_size),
    {
        let e = TupleEnumerator {
            end_bit,
            header_length,
            tuple_size,
            stack: Vec::new(),
            next: start_bit,
            finished: false,
        };
        assert(e.remaining() =~= all_tuples(start_bit, end_bit, header_length, tuple_size));
        e
    }

    fn is_exhausted(&self) -> (r: bool)
        requires
            self.fits(),
        ensures
            r == self.exhausted(),
    {
        let depth = self.stack.len();
        let needed: u32 = self.tuple_size as u32 - depth as u32;
        needed > 0 && (self.next as u32 + needed > self.header_length as u32 || (depth == 0
            && self.next > self.end_bit))
    }

    fn copy_of_stack(&self) -> (t: Vec<u16>)
        ensures
            t@ == self.stack@,
    {
        let mut t: Vec<u16> = Vec::new();
        let mut i: usize = 0;
        while i < self.stack.len()
            invariant
                i <= self.stack.len(),
                t@ == self.stack@.take(i as int),
            decreases self.stack.len() - i,
        {
            t.push(self.stack[i]);
            i += 1;
            assert(t@ =~= self.stack@.take(i as int));
        }
        assert(self.stack@.take(i as int) =~= self.stack@);
        t
    }

    /// The next tuple of the search, or `None` once all have been yielded.
    pub fn next_tuple(&mut self) -> (r: Option<Vec<u16>>)
        requires
            old(self).well_formed(),
        ensures
            final(self).well_formed(),
            match r {
                Some(t) => {
                    &&& old(self).remaining().len() > 0
                    &&& t@ == old(self).remaining().first()
                    &&& final(self).remaining() == old(self).remaining().drop_first()
                },
                None => {
                    &&& old(self).remaining().len() == 0
                    &&& final(self).remaining().len() == 0
                },
            },
    {
        if self.finished {
            return None;
        }
        let ghost end = self.end_bit as int;
        let ghost length = self.header_length as int;
        let ghost size = self.tuple_size as nat;
        let ghost before = self.remaining();
        // Leave every depth at which no position is left.
        while self.stack.len() > 0 && self.is_exhausted()
            invariant
                !self.finished,
                self.end_bit == end,
                self.header_length == length,
                self.tuple_size == size,
                self.well_formed(),
                self.remaining() == before,
            decreases self.stack@.len(),
        {
            proof {
                lemma_tuples_from_exhausted(
                    self.stack@,
                    self.next as int,
                    (size - self.stack@.len()) as nat,
                    end,
                    length,
                );
            }
            let ghost here = self.stack@;
            let last = self.stack.pop().unwrap();
            assert(self.stack@ == here.drop_last());
            assert(last < length);
            self.next = last + 1;
            assert(self.remaining() =~= before);
        }
        if self.is_exhausted() {
            proof {
                lemma_tuples_from_exhausted(self.stack@, self.next as int, size, end, length);
                assert(before =~= Seq::<Seq<u16>>::empty());
            }
            self.finished = true;
            return None;
        }
        // Descend along the first positions that are left.
        while self.stack.len() < self.tuple_size as usize
            invariant
                !self.finished,
                self.end_bit == end,
                self.header_length == length,
                self.tuple_size == size,
                self.fits(),
                self.remaining() == before,
                !self.exhausted(),
            decreases size - self.stack@.len(),
        {
            let ghost here = self.stack@;
            let next = self.next;
            self.stack.push(next);
            self.next = next + 1;
            proof {
                assert(self.stack@.drop_last() =~= here);
                assert(self.remaining() =~= before);
            }
        }
        let tuple = self.copy_of_stack();
        proof {
            assert(tuples_from(self.stack@, self.next as int, 0, end, length) =~= seq![self.stack@]);
            assert(before.first() == self.stack@);
            assert(before.drop_first() =~= pending_after(self.stack@, size, end, length));
        }
        if self.stack.len() == 0 {
            self.finished = true;
        } else {
            let last = self.stack.pop().unwrap();
            assert(last < length);
            self.next = last + 1;
        }
        assert(self.remaining() =~= before.drop_first());
        Some(tuple)
    }
}

/// A tuple is yielded below `prefix` exactly when it extends `prefix` as the
/// search demands.
pub proof fn lemma_tuples_from_membership(
    t: Seq<u16>,
    prefix: Seq<u16>,
    next: int,
    more: nat,
    end_bit: int,
    header_length: int,
)
    requires
        0 <= next,
        header_length <= u16::MAX,
    ensures
        tuples_from(prefix, next, more, end_bit, header_length).contains(t) <==> extends(
            t,
            prefix,
            next,
            more,
            end_bit,
            header_length,
        ),
    decreases more, header_length - next,
{
    let all = tuples_from(prefix, next, more, end_bit, header_length);
    if more == 0 {
        if extends(t, prefix, next, more, end_bit, header_length) {
            assert(t =~= prefix);
            assert(all[0] == t);
        }
        if all.contains(t) {
            assert(t == prefix);
        }
    } else if next >= header_length || (prefix.len() == 0 && next > end_bit) {
        if extends(t, prefix, next, more, end_bit, header_length) {
            assert(next <= t[prefix.len() as int] < header_length);
        }
    } else {
        let with = tuples_from(
            prefix.push(next as u16),
            next + 1,
            (more - 1) as nat,
            end_bit,
            header_length,
        );
        let without = tuples_from(prefix, next + 1, more, end_bit, header_length);
        lemma_tuples_from_membership(
            t,
            prefix.push(next as u16),
            next + 1,
            (more - 1) as nat,
            end_bit,
            header_length,
        );
        lemma_tuples_from_membership(t, prefix, next + 1, more, end_bit, header_length);
        lemma_seq_concat_contains_all_elements(with, without, t);
        let at = prefix.len() as int;
        if extends(t, prefix, next, more, end_bit, header_length) {
            assert(next <= t[at] < header_length);
            if t[at] == next {
                assert forall|i: int| 0 <= i < prefix.push(next as u16).len() implies #[trigger] t[i]
                    == prefix.push(next as u16)[i] by {
                    if i < at {
                        assert(t[i] == prefix[i]);
                    }
                }
                assert forall|i: int| at + 1 <= i < t.len() implies next + 1 <= #[trigger] t[i]
                    < header_length by {
                    assert(t[at] < t[i]);
                    assert(next <= t[i] < header_length);
                }
                assert(extends(
                    t,
                    prefix.push(next as u16),
                    next + 1,
                    (more - 1) as nat,
                    end_bit,
                    header_length,
                ));
            } else {
                assert forall|i: int| at <= i < t.len() implies next + 1 <= #[trigger] t[i]
                    < header_length by {
                    assert(next <= t[i] < header_length);
                    if at < i {
                        assert(t[at] < t[i]);
                    }
                }
                assert(extends(t, prefix, next + 1, more, end_bit, header_length));
            }
        }
        if extends(t, prefix.push(next as u16), next + 1, (more - 1) as nat, end_bit, header_length) {
            assert(t[at] == prefix.push(next as u16)[at]);
            assert forall|i: int| 0 <= i < prefix.len() implies #[trigger] t[i] == prefix[i] by {
                assert(t[i] == prefix.push(next as u16)[i]);
            }
            assert forall|i: int| at <= i < t.len() implies next <= #[trigger] t[i]
                < header_length by {
                if at < i {
                    assert(next + 1 <= t[i] < header_length);
                }
            }
            assert forall|i: int, j: int| at <= i < j < t.len() implies t[i] < t[j] by {
                if i == at {
                    assert(next + 1 <= t[j] < header_length);
                }
            }
            assert(extends(t, prefix, next, more, end_bit, header_length));
        }
        if extends(t, prefix, next + 1, more, end_bit, header_length) {
            assert forall|i: int| at <= i < t.len() implies next <= #[trigger] t[i]
                < header_length by {
                assert(next + 1 <= t[i] < header_length);
            }
            assert(extends(t, prefix, next, more, end_bit, header_length));
        }
    }
}

/// No tuple is yielded twice below `prefix`.
pub proof fn lemma_tuples_from_distinct(
    prefix: Seq<u16>,
    next: int,
    more: nat,
    end_bit: int,
    header_length: int,
)
    requires
        0 <= next,
        header_length <= u16::MAX,
    ensures
        tuples_from(prefix, next, more, end_bit, header_length).no_duplicates(),
    decreases more, header_length - next,
{
    if more == 0 {
    } else if next >= header_length || (prefix.len() == 0 && next > end_bit) {
    } else {
        let first = prefix.push(next as u16);
        let with = tuples_from(first, next + 1, (more - 1) as nat, end_bit, header_length);
        let without = tuples_from(prefix, next + 1, more, end_bit, header_length);
        lemma_tuples_from_distinct(first, next + 1, (more - 1) as nat, end_bit, header_length);
        lemma_tuples_from_distinct(prefix, next + 1, more, end_bit, header_length);
        let at = prefix.len() as int;
        assert forall|i: int, j: int| 0 <= i < with.len() && 0 <= j < without.len() implies with[i]
            != without[j] by {
            assert(with.contains(with[i]));
            assert(without.contains(without[j]));
            lemma_tuples_from_membership(
                with[i],
                first,
                next + 1,
                (more - 1) as nat,
                end_bit,
                header_length,
            );
            lemma_tuples_from_membership(without[j], prefix, next + 1, more, end_bit, header_length);
            assert(with[i][at] == first[at]);
            assert(next + 1 <= without[j][at] < header_length);
        }
        let all = with + without;
        assert forall|i: int, j: int| 0 <= i < all.len() && 0 <= j < all.len() && i != j implies all[i]
            != all[j] by {
            if i < with.len() && j < with.len() {
                assert(with[i] != with[j]);
            } else if i >= with.len() && j >= with.len() {
                assert(without[i - with.len()] != without[j - with.len()]);
            } else if i < with.len() {
                assert(with[i] != without[j - with.len()]);
            } else {
                assert(with[j] != without[i - with.len()]);
            }
        }
    }
}

/// Below `prefix` the tuples are yielded in lexicographic order.
pub proof fn lemma_tuples_from_ordered(
    prefix: Seq<u16>,
    next: int,
    more: nat,
    end_bit: int,
    header_length: int,
)
    requires
        0 <= next,
        header_length <= u16::MAX,
    ensures
        forall|i: int, j: int|
            0 <= i < j < tuples_from(prefix, next, more, end_bit, header_length).len()
                ==> comes_before(
                #[trigger] tuples_from(prefix, next, more, end_bit, header_length)[i],
                #[trigger] tuples_from(prefix, next, more, end_bit, header_length)[j],
            ),
    decreases more, header_length - next,
{
    if more == 0 {
    } else if next >= header_length || (prefix.len() == 0 && next > end_bit) {
    } else {
        let first = prefix.push(next as u16);
        let with = tuples_from(first, next + 1, (more - 1) as nat, end_bit, header_length);
        let without = tuples_from(prefix, next + 1, more, end_bit, header_length);
        lemma_tuples_from_ordered(first, next + 1, (more - 1) as nat, end_bit, header_length);
        lemma_tuples_from_ordered(prefix, next + 1, more, end_bit, header_length);
        let all = with + without;
        let at = prefix.len() as int;
        assert forall|i: int, j: int| 0 <= i < j < all.len() implies comes_before(
            #[trigger] all[i],
            #[trigger] all[j],
        ) by {
            if j < with.len() {
                assert(comes_before(with[i], with[j]));
            } else if i >= with.len() {
                assert(comes_before(without[i - with.len()], without[j - with.len()]));
            } else {
                let a = with[i];
                let b = without[j - with.len()];
                assert(with.contains(a));
                assert(without.contains(b));
                lemma_tuples_from_membership(
                    a,
                    first,
                    next + 1,
                    (more - 1) as nat,
                    end_bit,
                    header_length,
                );
                lemma_tuples_from_membership(b, prefix, next + 1, more, end_bit, header_length);
                assert(a[at] == first[at]);
                assert(next + 1 <= b[at] < header_length);
                assert(a.take(at) =~= b.take(at)) by {
                    assert forall|k: int| 0 <= k < at implies a[k] == b[k] by {
                        assert(a[k] == first[k]);
                        assert(b[k] == prefix[k]);
                    }
                }
            }
        }
    }
}

/// The search yields its tuples in lexicographic order.
pub proof fn lemma_all_tuples_are_ordered(
    start_bit: u16,
    end_bit: u16,
    header_length: u16,
    tuple_size: u16,
)
    ensures
        forall|i: int, j: int|
            0 <= i < j < all_tuples(start_bit, end_bit, header_length, tuple_size).len()
                ==> comes_before(
                #[trigger] all_tuples(start_bit, end_bit, header_length, tuple_size)[i],
                #[trigger] all_tuples(start_bit, end_bit, header_length, tuple_size)[j],
            ),
{
    lemma_tuples_from_ordered(
        Seq::empty(),
        start_bit as int,
        tuple_size as nat,
        end_bit as int,
        header_length as int,
    );
}

/// The search yields each valid tuple once and nothing else, so it yields as many
/// tuples as there are valid ones.
pub proof fn lemma_all_tuples_are_the_valid_ones(
    start_bit: u16,
    end_bit: u16,
    header_length: u16,
    tuple_size: u16,
)
    ensures
        all_tuples(start_bit, end_bit, header_length, tuple_size).no_duplicates(),
        forall|t: Seq<u16>|
            all_tuples(start_bit, end_bit, header_length, tuple_size).contains(t) <==> valid_tuple(
                t,
                start_bit,
                end_bit,
                header_length,
                tuple_size,
            ),
        all_tuples(start_bit, end_bit, header_length, tuple_size).to_set() == Set::new(
            |t: Seq<u16>| valid_tuple(t, start_bit, end_bit, header_length, tuple_size),
        ),
        all_tuples(start_bit, end_bit, header_length, tuple_size).len() == Set::new(
            |t: Seq<u16>| valid_tuple(t, start_bit, end_bit, header_length, tuple_size),
        ).len(),
{
    let all = all_tuples(start_bit, end_bit, header_length, tuple_size);
    let none = Seq::<u16>::empty();
    lemma_tuples_from_distinct(
        none,
        start_bit as int,
        tuple_size as nat,
        end_bit as int,
        header_length as int,
    );
    assert forall|t: Seq<u16>| all.contains(t) <==> valid_tuple(
        t,
        start_bit,
        end_bit,
        header_length,
        tuple_size,
    ) by {
        lemma_tuples_from_membership(
            t,
            none,
            start_bit as int,
            tuple_size as nat,
            end_bit as int,
            header_length as int,
        );
        if valid_tuple(t, start_bit, end_bit, header_length, tuple_size) {
            assert forall|i: int| 0 <= i < t.len() implies start_bit <= #[trigger] t[i]
                < header_length by {
                assert(t[i] < header_length);
                if 0 < i {
                    assert(t[0] < t[i]);
                }
            }
        }
        if extends(
            t,
            none,
            start_bit as int,
            tuple_size as nat,
            end_bit as int,
            header_length as int,
        ) {
            if tuple_size > 0 {
                assert(start_bit <= t[0] < header_length);
            }
            assert forall|i: int| 0 <= i < t.len() implies #[trigger] t[i] < header_length by {
                assert(start_bit <= t[i] < header_length);
            }
        }
    }
    let valid = Set::new(
        |t: Seq<u16>| valid_tuple(t, start_bit, end_bit, header_length, tuple_size),
    );
    assert(all.to_set() =~= valid);
    all.unique_seq_to_set();
}

/// The addresses of tuples are as many as the tuples times the nonce bits.
pub proof fn lemma_addresses_for_len(tuples: Seq<Seq<u16>>, nonce_length: nat)
    ensures
        addresses_for(tuples, nonce_length).len() == tuples.len() * nonce_length,
    decreases tuples.len(),
{
    if tuples.len() > 0 {
        lemma_addresses_for_len(tuples.drop_last(), nonce_length);
        assert(addresses_for(tuples, nonce_length).len() == tuples.len() * nonce_length)
            by (nonlinear_arith)
            requires
                addresses_for(tuples, nonce_length).len() == (tuples.len() - 1) * nonce_length
                    + nonce_length,
        ;
    }
}

/// The addresses of tuples are those whose tuple is among the tuples and whose
/// nonce bit exists, and none occurs twice if no tuple does.
pub proof fn lemma_addresses_for(tuples: Seq<Seq<u16>>, nonce_length: nat)
    requires
        nonce_length <= u8::MAX,
    ensures
        forall|a: AddressView|
            addresses_for(tuples, nonce_length).contains(a) <==> tuples.contains(a.header_bits)
                && a.nonce_bit < nonce_length,
        tuples.no_duplicates() ==> addresses_for(tuples, nonce_length).no_duplicates(),
    decreases tuples.len(),
{
    let all = addresses_for(tuples, nonce_length);
    if tuples.len() == 0 {
        assert forall|a: AddressView|
            all.contains(a) <==> tuples.contains(a.header_bits) && a.nonce_bit
                < nonce_length by {}
    } else {
        let before = addresses_for(tuples.drop_last(), nonce_length);
        let last = fan_out(tuples.last(), nonce_length);
        lemma_addresses_for(tuples.drop_last(), nonce_length);
        assert forall|a: AddressView|
            all.contains(a) <==> tuples.contains(a.header_bits) && a.nonce_bit
                < nonce_length by {
            lemma_seq_concat_contains_all_elements(before, last, a);
            if last.contains(a) {
                assert(tuples[tuples.len() - 1] == a.header_bits);
            }
            if tuples.drop_last().contains(a.header_bits) {
                let i = choose|i: int|
                    0 <= i < tuples.drop_last().len() && tuples.drop_last()[i] == a.header_bits;
                assert(tuples[i] == a.header_bits);
            }
            if tuples.contains(a.header_bits) && a.nonce_bit < nonce_length {
                let i = choose|i: int| 0 <= i < tuples.len() && tuples[i] == a.header_bits;
                if i < tuples.len() - 1 {
                    assert(tuples.drop_last()[i] == a.header_bits);
                } else {
                    assert(last[a.nonce_bit as int] == a);
                }
            }
        }
        if tuples.no_duplicates() {
            assert(tuples.drop_last().no_duplicates());
            assert forall|i: int, j: int| 0 <= i < all.len() && 0 <= j < all.len() && i
                != j implies all[i] != all[j] by {
                if i < before.len() && j < before.len() {
                } else if i >= before.len() && j >= before.len() {
                    assert(last[i - before.len()].nonce_bit != last[j - before.len()].nonce_bit);
                } else {
                    let inner = if i < before.len() {
                        i
                    } else {
                        j
                    };
                    assert(before.contains(before[inner]));
                    let n = choose|n: int|
                        0 <= n < tuples.drop_last().len() && tuples.drop_last()[n]
                            == before[inner].header_bits;
                    assert(tuples[n] != tuples[tuples.len() - 1]);
                }
            }
        }
    }
}

/// The addresses of two runs of tuples, one after the other, are those of the
/// tuples taken together.
pub proof fn lemma_addresses_for_join(
    first: Seq<Seq<u16>>,
    second: Seq<Seq<u16>>,
    nonce_length: nat,
)
    ensures
        addresses_for(first + second, nonce_length) == addresses_for(first, nonce_length)
            + addresses_for(second, nonce_length),
    decreases second.len(),
{
    if second.len() == 0 {
        assert(first + second =~= first);
        assert(addresses_for(first, nonce_length) + addresses_for(second, nonce_length)
            =~= addresses_for(first, nonce_length));
    } else {
        lemma_addresses_for_join(first, second.drop_last(), nonce_length);
        assert((first + second).drop_last() =~= first + second.drop_last());
        assert(addresses_for(first + second, nonce_length) =~= addresses_for(first, nonce_length)
            + addresses_for(second, nonce_length));
    }
}

/// The search yields each valid address once and nothing else: as many addresses
/// as there are valid tuples, times the nonce bits.
pub proof fn lemma_all_addresses_are_the_valid_ones(
    start_bit: u16,
    end_bit: u16,
    header_length: u16,
    nonce_length: u8,
    tuple_size: u16,
)
    ensures
        all_addresses(start_bit, end_bit, header_length, nonce_length, tuple_size).no_duplicates(),
        forall|a: AddressView|
            all_addresses(start_bit, end_bit, header_length, nonce_length, tuple_size).contains(a)
                <==> valid_address(
                a,
                start_bit,
                end_bit,
                header_length,
                nonce_length,
                tuple_size,
            ),
        all_addresses(start_bit, end_bit, header_length, nonce_length, tuple_size).len()
            == Set::new(
            |t: Seq<u16>| valid_tuple(t, start_bit, end_bit, header_length, tuple_size),
        ).len() * nonce_length,
{
    lemma_all_tuples_are_the_valid_ones(start_bit, end_bit, header_length, tuple_size);
    lemma_addresses_for(
        all_tuples(start_bit, end_bit, header_length, tuple_size),
        nonce_length as nat,
    );
    lemma_addresses_for_len(
        all_tuples(start_bit, end_bit, header_length, tuple_size),
        nonce_length as nat,
    );
}

} // verus!
