//! The allow-list: the set of barcodes whose records are kept.
//!
//! The set is held as a vector of byte strings in strictly increasing
//! lexicographic order, so that a barcode is looked up by bisection and none is
//! held twice.

use crate::error::RunError;
use vstd::prelude::*;
use vstd::slice::slice_subrange;
use vstd::slice::slice_to_vec;

verus! {

/// `a` comes before `b` in lexicographic order of bytes.
pub open spec fn lex_less(a: Seq<u8>, b: Seq<u8>) -> bool
    decreases a.len(),
{
    if b.len() == 0 {
        false
    } else if a.len() == 0 {
        true
    } else if a[0] != b[0] {
        a[0] < b[0]
    } else {
        lex_less(a.skip(1), b.skip(1))
    }
}

/// Each entry comes before all later ones.
pub open spec fn strictly_sorted(items: Seq<Seq<u8>>) -> bool {
    forall|i: int, j: int|
        0 <= i < j < items.len() ==> lex_less(#[trigger] items[i], #[trigger] items[j])
}

/// Where the first line of `content` ends: at its first newline, or at its
/// end if it has none.
pub open spec fn is_line_end(content: Seq<u8>, n: int) -> bool {
    &&& 0 <= n <= content.len()
    &&& n < content.len() ==> content[n] == 10
    &&& forall|j: int| 0 <= j < n ==> content[j] != 10
}

/// Where the first line of `content` ends.
pub open spec fn line_end(content: Seq<u8>) -> int {
    choose|n: int| is_line_end(content, n)
}

/// `line` without the carriage return at its end, if it has one.
pub open spec fn without_carriage_return(line: Seq<u8>) -> Seq<u8> {
    if line.len() > 0 && line.last() == 13 {
        line.drop_last()
    } else {
        line
    }
}

/// The lines of `content`, in order. A line ends at a newline, which is not
/// part of it, nor is a carriage return just before that newline. What
/// follows the last newline is a line too, unless it is empty.
pub open spec fn lines(content: Seq<u8>) -> Seq<Seq<u8>>
    decreases content.len(),
{
    if content.len() == 0 {
        Seq::empty()
    } else {
        let n = line_end(content);
        if 0 <= n < content.len() {
            seq![without_carriage_return(content.take(n))] + lines(content.skip(n + 1))
        } else {
            seq![content]
        }
    }
}

/// How two byte strings stand to one another in lexicographic order.
#[derive(Debug, Clone, Copy, PartialEq, Eq, Structural)]
pub enum Order {
    /// The first comes before the second.
    Before,
    /// The two are the same string.
    Same,
    /// The first comes after the second.
    After,
}

/// Compares two byte strings in lexicographic order.
pub fn compare(a: &[u8], b: &[u8]) -> (order: Order)
    ensures
        order == Order::Before <==> lex_less(a@, b@),
        order == Order::Same <==> a@ == b@,
        order == Order::After <==> lex_less(b@, a@),
{
    let mut i: usize = 0;
    while i < a.len() && i < b.len()
        invariant
            0 <= i <= a@.len(),
            i <= b@.len(),
            a@.take(i as int) == b@.take(i as int),
        decreases a@.len() - i,
    {
        if a[i] != b[i] {
            proof {
                lemma_lex_less_after_common_prefix(a@, b@, i as int);
                lemma_lex_less_after_common_prefix(b@, a@, i as int);
                assert(a@.skip(i as int)[0] == a@[i as int]);
                assert(b@.skip(i as int)[0] == b@[i as int]);
            }
            if a[i] < b[i] {
                return Order::Before;
            } else {
                return Order::After;
            }
        }
        proof {
            assert(a@.take(i + 1) =~= a@.take(i as int).push(a@[i as int]));
            assert(b@.take(i + 1) =~= b@.take(i as int).push(b@[i as int]));
        }
        i += 1;
    }
    proof {
        lemma_lex_less_after_common_prefix(a@, b@, i as int);
        lemma_lex_less_after_common_prefix(b@, a@, i as int);
        if a@.len() == b@.len() {
            assert(a@ =~= a@.take(i as int));
            assert(b@ =~= b@.take(i as int));
            lemma_lex_less_irreflexive(a@);
        }
    }
    if a.len() < b.len() {
        Order::Before
    } else if a.len() > b.len() {
        Order::After
    } else {
        Order::Same
    }
}

/// The allow-list: a finite set of barcodes, each a byte string.
pub struct BarcodeSet {
    barcodes: Vec<Vec<u8>>,
}

impl View for BarcodeSet {
    type V = Set<Seq<u8>>;

    closed spec fn view(&self) -> Set<Seq<u8>> {
        self.items().to_set()
    }
}

impl BarcodeSet {
    /// The barcodes as they are held, in order.
    pub closed spec fn items(&self) -> Seq<Seq<u8>> {
        self.barcodes@.map_values(|barcode: Vec<u8>| barcode@)
    }

    #[verifier::type_invariant]
    closed spec fn well_formed(&self) -> bool {
        strictly_sorted(self.items())
    }

    /// The empty set.
    pub fn new() -> (set: BarcodeSet)
        ensures
            set@ == Set::<Seq<u8>>::empty(),
    {
        let set = BarcodeSet { barcodes: Vec::new() };
        assert(set.items() =~= Seq::empty());
        assert(set@ =~= Set::<Seq<u8>>::empty());
        set
    }

    /// How many barcodes the set holds.
    pub fn len(&self) -> (count: usize)
        ensures
            self@.finite(),
            count == self@.len(),
    {
        proof {
            use_type_invariant(self);
            lemma_strictly_sorted_has_no_duplicates(self.items());
            self.items().unique_seq_to_set();
            vstd::seq_lib::seq_to_set_is_finite(self.items());
        }
        self.barcodes.len()
    }

    /// Whether the set holds no barcode.
    pub fn is_empty(&self) -> (empty: bool)
        ensures
            empty == (self@ == Set::<Seq<u8>>::empty()),
    {
        proof {
            if self.barcodes@.len() == 0 {
                assert(self@ =~= Set::<Seq<u8>>::empty());
            } else {
                assert(self.items()[0] == self.barcodes@[0]@);
                assert(self@.contains(self.items()[0]));
            }
        }
        self.barcodes.len() == 0
    }

    /// The number of barcodes that come before `barcode`. That is where it
    /// stands in the order if the set holds it, and where it would have to
    /// go if not.
    fn rank(&self, barcode: &[u8]) -> (at: usize)
        ensures
            at <= self.items().len(),
            forall|i: int| 0 <= i < at ==> lex_less(#[trigger] self.items()[i], barcode@),
            forall|i: int|
                at <= i < self.items().len() ==> !lex_less(#[trigger] self.items()[i], barcode@),
    {
        proof {
            use_type_invariant(self);
        }
        let mut low: usize = 0;
        let mut high: usize = self.barcodes.len();
        while low < high
            invariant
                0 <= low <= high <= self.items().len(),
                self.items().len() == self.barcodes@.len(),
                strictly_sorted(self.items()),
                forall|i: int| 0 <= i < low ==> lex_less(#[trigger] self.items()[i], barcode@),
                forall|i: int|
                    high <= i < self.items().len() ==> !lex_less(
                        #[trigger] self.items()[i],
                        barcode@,
                    ),
            decreases high - low,
        {
            let mid = low + (high - low) / 2;
            let order = compare(self.barcodes[mid].as_slice(), barcode);
            assert(self.items()[mid as int] == self.barcodes@[mid as int]@);
            if order == Order::Before {
                proof {
                    assert forall|i: int| 0 <= i < mid + 1 implies lex_less(
                        #[trigger] self.items()[i],
                        barcode@,
                    ) by {
                        if i < mid {
                            lemma_lex_less_transitive(
                                self.items()[i],
                                self.items()[mid as int],
                                barcode@,
                            );
                        }
                    }
                }
                low = mid + 1;
            } else {
                proof {
                    assert forall|i: int| mid <= i < self.items().len() implies !lex_less(
                        #[trigger] self.items()[i],
                        barcode@,
                    ) by {
                        if mid < i && lex_less(self.items()[i], barcode@) {
                            lemma_lex_less_transitive(
                                self.items()[mid as int],
                                self.items()[i],
                                barcode@,
                            );
                        }
                    }
                }
                high = mid;
            }
        }
        low
    }

    /// Whether `barcode` is in the set.
    pub fn contains(&self, barcode: &[u8]) -> (held: bool)
        ensures
            held == self@.contains(barcode@),
    {
        proof {
            use_type_invariant(self);
        }
        let at = self.rank(barcode);
        if at == self.barcodes.len() {
            proof {
                lemma_lex_less_irreflexive(barcode@);
            }
            return false;
        }
        let order = compare(self.barcodes[at].as_slice(), barcode);
        proof {
            assert(self.items()[at as int] == self.barcodes@[at as int]@);
            lemma_lex_less_irreflexive(barcode@);
            if order == Order::Same {
                assert(self.items().contains(barcode@));
            } else {
                assert forall|i: int| 0 <= i < self.items().len() implies self.items()[i]
                    != barcode@ by {
                    if at < i {
                        lemma_lex_less_transitive(
                            barcode@,
                            self.items()[at as int],
                            self.items()[i],
                        );
                    }
                }
            }
        }
        order == Order::Same
    }

    /// Puts `barcode` into the set. Says whether it was new.
    pub fn insert(&mut self, barcode: Vec<u8>) -> (added: bool)
        ensures
            final(self)@ == old(self)@.insert(barcode@),
            added == !old(self)@.contains(barcode@),
    {
        proof {
            use_type_invariant(&*self);
        }
        let at = self.rank(barcode.as_slice());
        let ghost before = self.items();
        if at < self.barcodes.len() {
            let order = compare(self.barcodes[at].as_slice(), barcode.as_slice());
            assert(before[at as int] == self.barcodes@[at as int]@);
            if order == Order::Same {
                proof {
                    assert(before.contains(barcode@));
                    assert(self@ =~= self@.insert(barcode@));
                }
                return false;
            }
        }
        proof {
            lemma_lex_less_irreflexive(barcode@);
            let after = before.insert(at as int, barcode@);
            assert forall|i: int| 0 <= i < before.len() implies before[i] != barcode@ by {
                if at < i {
                    lemma_lex_less_transitive(barcode@, before[at as int], before[i]);
                }
            }
            assert forall|i: int, j: int| 0 <= i < j < after.len() implies lex_less(
                #[trigger] after[i],
                #[trigger] after[j],
            ) by {
                if j == at {
                    assert(after[i] == before[i]);
                } else if i == at {
                    assert(after[j] == before[j - 1]);
                    if at < j - 1 {
                        lemma_lex_less_transitive(barcode@, before[at as int], before[j - 1]);
                    }
                } else {
                    let i0 = if i < at { i } else { i - 1 };
                    let j0 = if j < at { j } else { j - 1 };
                    assert(after[i] == before[i0] && after[j] == before[j0]);
                }
            }
            assert(self.barcodes@.insert(at as int, barcode).map_values(|b: Vec<u8>| b@) =~= after);
            assert(after.to_set() =~= before.to_set().insert(barcode@)) by {
                assert forall|b: Seq<u8>| after.to_set().contains(b) implies before.to_set().insert(
                    barcode@,
                ).contains(b) by {
                    let k = choose|k: int| 0 <= k < after.len() && after[k] == b;
                    if k < at {
                        assert(before[k] == b);
                    } else if k > at {
                        assert(before[k - 1] == b);
                    }
                }
                assert forall|b: Seq<u8>| before.to_set().insert(barcode@).contains(
                    b,
                ) implies after.to_set().contains(b) by {
                    if b == barcode@ {
                        assert(after[at as int] == b);
                    } else {
                        let k = choose|k: int| 0 <= k < before.len() && before[k] == b;
                        if k < at {
                            assert(after[k] == b);
                        } else {
                            assert(after[k + 1] == b);
                        }
                    }
                }
            }
        }
        let mut taken = BarcodeSet::new();
        core::mem::swap(self, &mut taken);
        let mut held = taken.barcodes;
        held.insert(at, barcode);
        *self = BarcodeSet { barcodes: held };
        true
    }
}

/// Reads an allow-list: one barcode on each line of `content`.
///
/// The set holds every line once, as the bytes between the line breaks, an
/// empty line as the empty barcode. Content without any line is an error,
/// for with no barcode to look for no record would be kept.
pub fn load_barcodes(content: &[u8]) -> (loaded: Result<BarcodeSet, RunError>)
    ensures
        loaded is Ok <==> content@.len() > 0,
        loaded matches Ok(set) ==> set@ == lines(content@).to_set(),
        loaded matches Err(e) ==> e == RunError::NoBarcodes,
{
    let len = content.len();
    if len == 0 {
        return Err(RunError::NoBarcodes);
    }
    let mut set = BarcodeSet::new();
    let mut start: usize = 0;
    proof {
        assert(content@.skip(0) =~= content@);
        assert(set@.union(lines(content@).to_set()) =~= lines(content@).to_set());
    }
    while start < len
        invariant
            len == content@.len(),
            0 <= start <= len,
            lines(content@).to_set() == set@.union(lines(content@.skip(start as int)).to_set()),
        decreases len - start,
    {
        let ghost rest = content@.skip(start as int);
        let mut end: usize = start;
        while end < len && content[end] != 10
            invariant
                len == content@.len(),
                start <= end <= len,
                forall|j: int| start <= j < end ==> content@[j] != 10,
            decreases len - end,
        {
            end += 1;
        }
        proof {
            assert(is_line_end(rest, end - start));
            lemma_line_end_is(rest, end - start);
        }
        let mut stop: usize = end;
        if end < len && start < end && content[end - 1] == 13 {
            stop = end - 1;
        }
        let line = slice_to_vec(slice_subrange(content, start, stop));
        let ghost held = set@;
        proof {
            assert(rest.take(end - start) =~= content@.subrange(start as int, end as int));
            if end < len {
                assert(line@ =~= without_carriage_return(rest.take(end - start)));
                assert(rest.skip(end - start + 1) =~= content@.skip(end + 1));
                lemma_to_set_of_concat(seq![line@], lines(content@.skip(end + 1)));
                lemma_to_set_of_one(line@);
            } else {
                assert(line@ =~= rest);
                assert(lines(rest) =~= seq![line@]);
                lemma_to_set_of_one(line@);
                assert(content@.skip(len as int).len() == 0);
                assert(lines(content@.skip(len as int)).to_set() =~= Set::<Seq<u8>>::empty());
            }
        }
        set.insert(line);
        let next = if end < len {
            end + 1
        } else {
            end
        };
        proof {
            assert(held.union(lines(rest).to_set()) =~= set@.union(
                lines(content@.skip(next as int)).to_set(),
            ));
        }
        start = next;
    }
    proof {
        assert(lines(content@.skip(len as int)).to_set() =~= Set::<Seq<u8>>::empty());
        assert(set@.union(Set::<Seq<u8>>::empty()) =~= set@);
        assert(content@.skip(0) =~= content@);
    }
    Ok(set)
}

/// Two strings that agree on their first `n` bytes stand to one another as
/// what follows those bytes.
proof fn lemma_lex_less_after_common_prefix(a: Seq<u8>, b: Seq<u8>, n: int)
    requires
        0 <= n <= a.len(),
        n <= b.len(),
        a.take(n) == b.take(n),
    ensures
        lex_less(a, b) == lex_less(a.skip(n), b.skip(n)),
    decreases n,
{
    if n > 0 {
        assert(a[0] == a.take(n)[0] && b[0] == b.take(n)[0]);
        assert(a.skip(1).take(n - 1) =~= a.take(n).skip(1));
        assert(b.skip(1).take(n - 1) =~= b.take(n).skip(1));
        lemma_lex_less_after_common_prefix(a.skip(1), b.skip(1), n - 1);
        assert(a.skip(1).skip(n - 1) =~= a.skip(n));
        assert(b.skip(1).skip(n - 1) =~= b.skip(n));
    } else {
        assert(a.skip(0) =~= a);
        assert(b.skip(0) =~= b);
    }
}

/// No string comes before itself.
pub proof fn lemma_lex_less_irreflexive(a: Seq<u8>)
    ensures
        !lex_less(a, a),
    decreases a.len(),
{
    if a.len() > 0 {
        lemma_lex_less_irreflexive(a.skip(1));
    }
}

/// What comes before a string comes before all that the string comes before.
pub proof fn lemma_lex_less_transitive(a: Seq<u8>, b: Seq<u8>, c: Seq<u8>)
    requires
        lex_less(a, b),
        lex_less(b, c),
    ensures
        lex_less(a, c),
    decreases a.len(),
{
    if a.len() > 0 && a[0] == b[0] && b[0] == c[0] {
        lemma_lex_less_transitive(a.skip(1), b.skip(1), c.skip(1));
    }
}

/// Strings in strictly increasing order are all different.
proof fn lemma_strictly_sorted_has_no_duplicates(items: Seq<Seq<u8>>)
    requires
        strictly_sorted(items),
    ensures
        items.no_duplicates(),
{
    assert forall|i: int, j: int|
        0 <= i < items.len() && 0 <= j < items.len() && i != j implies items[i] != items[j] by {
        lemma_lex_less_irreflexive(items[i]);
        if i < j {
            assert(lex_less(items[i], items[j]));
        } else {
            assert(lex_less(items[j], items[i]));
        }
    }
}

/// A position that ends the first line is the one `line_end` gives.
proof fn lemma_line_end_is(content: Seq<u8>, n: int)
    requires
        is_line_end(content, n),
    ensures
        line_end(content) == n,
{
    let chosen = line_end(content);
    assert(is_line_end(content, chosen));
    if chosen < n {
        assert(content[chosen] != 10);
    }
    if n < chosen {
        assert(content[n] != 10);
    }
}

/// A sequence of one string has that string as its one member.
proof fn lemma_to_set_of_one(a: Seq<u8>)
    ensures
        seq![a].to_set() == set![a],
{
    assert(seq![a][0] == a);
    assert(seq![a].to_set() =~= set![a]);
}

/// The members of two sequences joined are the members of either.
proof fn lemma_to_set_of_concat(a: Seq<Seq<u8>>, b: Seq<Seq<u8>>)
    ensures
        (a + b).to_set() == a.to_set().union(b.to_set()),
{
    assert forall|x: Seq<u8>| (a + b).to_set().contains(x) implies a.to_set().union(
        b.to_set(),
    ).contains(x) by {
        let k = choose|k: int| 0 <= k < (a + b).len() && (a + b)[k] == x;
        if k < a.len() {
            assert(a[k] == x);
        } else {
            assert(b[k - a.len()] == x);
        }
    }
    assert forall|x: Seq<u8>| a.to_set().union(b.to_set()).contains(x) implies (a
        + b).to_set().contains(x) by {
        if a.to_set().contains(x) {
            let k = choose|k: int| 0 <= k < a.len() && a[k] == x;
            assert((a + b)[k] == x);
        } else {
            let k = choose|k: int| 0 <= k < b.len() && b[k] == x;
            assert((a + b)[k + a.len()] == x);
        }
    }
    assert((a + b).to_set() =~= a.to_set().union(b.to_set()));
}

} // verus!
