//! Transfers of an amount from a sender to a recipient, and the sorted runs
//! in which they are kept.

use crate::text::{
    bytes_less, compare_bytes, lemma_bytes_less_irreflexive, lemma_bytes_less_total,
    lemma_bytes_less_transitive, lemma_text_bytes_injective, text_bytes, Sign,
};
use vstd::prelude::*;
use vstd::string::*;

verus! {

/// A transfer. Two transfers with the same three fields are the same
/// transaction: there is no nonce to tell them apart.
#[derive(Debug, Clone, PartialEq, Eq, PartialOrd, Ord)]
pub struct Transaction {
    pub sender: String,
    pub recipient: String,
    pub amount: u64,
}

/// What a transaction is, as plain values.
pub ghost struct TransactionView {
    pub sender: Seq<char>,
    pub recipient: Seq<char>,
    pub amount: u64,
}

impl View for Transaction {
    type V = TransactionView;

    open spec fn view(&self) -> TransactionView {
        TransactionView { sender: self.sender@, recipient: self.recipient@, amount: self.amount }
    }
}

/// The views of a run of transactions, in the same order.
pub open spec fn transaction_views(ts: Seq<Transaction>) -> Seq<TransactionView> {
    Seq::new(ts.len(), |i: int| ts[i]@)
}

/// Whether `a` comes before `b`: by the sender, then by the recipient, both
/// byte by byte, then by the amount.
pub open spec fn transaction_less(a: TransactionView, b: TransactionView) -> bool {
    if text_bytes(a.sender) != text_bytes(b.sender) {
        bytes_less(text_bytes(a.sender), text_bytes(b.sender))
    } else if text_bytes(a.recipient) != text_bytes(b.recipient) {
        bytes_less(text_bytes(a.recipient), text_bytes(b.recipient))
    } else {
        a.amount < b.amount
    }
}

/// How `a` stands to `b` in the order of transactions.
pub open spec fn transaction_sign(a: TransactionView, b: TransactionView) -> Sign {
    if a == b {
        Sign::Same
    } else if transaction_less(a, b) {
        Sign::Less
    } else {
        Sign::Greater
    }
}

/// Whether `ts` is in rising order, so that nothing occurs twice.
pub open spec fn sorted(ts: Seq<TransactionView>) -> bool {
    forall|i: int, j: int| 0 <= i < j < ts.len() ==> transaction_less(ts[i], ts[j])
}

/// `ts` with `t` put in before the transactions at its end that come after
/// `t`, unless `t` is met there. For a sorted `ts` this is the sorted run of
/// the same transactions and `t`.
pub open spec fn with_transaction(ts: Seq<TransactionView>, t: TransactionView) -> Seq<
    TransactionView,
>
    decreases ts.len(),
{
    if ts.len() == 0 {
        seq![t]
    } else if ts.last() == t {
        ts
    } else if transaction_less(ts.last(), t) {
        ts.push(t)
    } else {
        with_transaction(ts.drop_last(), t).push(ts.last())
    }
}

/// What comes before something that comes before a third comes before the
/// third.
pub proof fn lemma_transaction_less_transitive(
    a: TransactionView,
    b: TransactionView,
    c: TransactionView,
)
    requires
        transaction_less(a, b),
        transaction_less(b, c),
    ensures
        transaction_less(a, c),
{
    let (sa, sb, sc) = (text_bytes(a.sender), text_bytes(b.sender), text_bytes(c.sender));
    let (ra, rb, rc) = (
        text_bytes(a.recipient),
        text_bytes(b.recipient),
        text_bytes(c.recipient),
    );
    if sa != sb && sb != sc {
        lemma_bytes_less_transitive(sa, sb, sc);
        lemma_bytes_less_irreflexive(sa);
    } else if sa == sb && sb == sc {
        if ra != rb && rb != rc {
            lemma_bytes_less_transitive(ra, rb, rc);
            lemma_bytes_less_irreflexive(ra);
        }
    }
}

/// Of two different transactions one comes before the other.
pub proof fn lemma_transaction_less_total(a: TransactionView, b: TransactionView)
    ensures
        a == b || transaction_less(a, b) || transaction_less(b, a),
{
    lemma_bytes_less_total(text_bytes(a.sender), text_bytes(b.sender));
    lemma_bytes_less_total(text_bytes(a.recipient), text_bytes(b.recipient));
    if text_bytes(a.sender) == text_bytes(b.sender) && text_bytes(a.recipient) == text_bytes(
        b.recipient,
    ) {
        lemma_text_bytes_injective(a.sender, b.sender);
        lemma_text_bytes_injective(a.recipient, b.recipient);
    }
}

/// What a run holds after one more was pushed: what it held, and that one.
pub proof fn lemma_push_holds(ts: Seq<TransactionView>, t: TransactionView, x: TransactionView)
    ensures
        ts.push(t).contains(x) <==> ts.contains(x) || x == t,
{
    let after = ts.push(t);
    assert(after[ts.len() as int] == t);
    if ts.contains(x) {
        let i = choose|i: int| 0 <= i < ts.len() && ts[i] == x;
        assert(after[i] == x);
    }
    if after.contains(x) {
        let i = choose|i: int| 0 <= i < after.len() && after[i] == x;
        if i < ts.len() {
            assert(ts[i] == x);
        }
    }
}

/// What `with_transaction` holds: what was there, and the one added.
pub proof fn lemma_with_transaction_holds(
    ts: Seq<TransactionView>,
    t: TransactionView,
    x: TransactionView,
)
    ensures
        with_transaction(ts, t).contains(x) <==> ts.contains(x) || x == t,
    decreases ts.len(),
{
    if ts.len() == 0 {
        lemma_push_holds(ts, t, x);
        assert(seq![t] =~= ts.push(t));
    } else if ts.last() == t {
        assert(ts[ts.len() - 1] == t);
    } else if transaction_less(ts.last(), t) {
        lemma_push_holds(ts, t, x);
    } else {
        let front = ts.drop_last();
        lemma_with_transaction_holds(front, t, x);
        lemma_push_holds(with_transaction(front, t), ts.last(), x);
        lemma_push_holds(front, ts.last(), x);
        assert(front.push(ts.last()) =~= ts);
    }
}

/// Where every transaction from the place `p` on comes after `t`, and the
/// one before `p` comes before `t`, `with_transaction` puts `t` at `p`.
pub proof fn lemma_put_at(ts: Seq<TransactionView>, t: TransactionView, p: int)
    requires
        0 <= p <= ts.len(),
        forall|k: int| p <= k < ts.len() ==> transaction_sign(ts[k], t) == Sign::Greater,
        p > 0 ==> transaction_less(ts[p - 1], t),
    ensures
        with_transaction(ts, t) == ts.insert(p, t),
    decreases ts.len(),
{
    if ts.len() == 0 {
        assert(ts.insert(0, t) =~= seq![t]);
    } else if p == ts.len() {
        assert(ts.insert(p, t) =~= ts.push(t));
    } else {
        assert(transaction_sign(ts[ts.len() - 1], t) == Sign::Greater);
        lemma_put_at(ts.drop_last(), t, p);
        assert(ts.drop_last().insert(p, t).push(ts.last()) =~= ts.insert(p, t));
    }
}

/// Where `t` stands at the place `p` and every transaction after it comes
/// after `t`, `with_transaction` changes nothing.
pub proof fn lemma_met_at(ts: Seq<TransactionView>, t: TransactionView, p: int)
    requires
        0 <= p < ts.len(),
        ts[p] == t,
        forall|k: int| p < k < ts.len() ==> transaction_sign(ts[k], t) == Sign::Greater,
    ensures
        with_transaction(ts, t) == ts,
    decreases ts.len(),
{
    if p < ts.len() - 1 {
        assert(transaction_sign(ts[ts.len() - 1], t) == Sign::Greater);
        lemma_met_at(ts.drop_last(), t, p);
        assert(ts.drop_last().push(ts.last()) =~= ts);
    }
}

/// A sorted run stays sorted when a transaction is added to it.
pub proof fn lemma_with_transaction_sorted(ts: Seq<TransactionView>, t: TransactionView)
    requires
        sorted(ts),
    ensures
        sorted(with_transaction(ts, t)),
    decreases ts.len(),
{
    if ts.len() == 0 {
    } else if ts.last() == t {
    } else if transaction_less(ts.last(), t) {
        let after = ts.push(t);
        assert forall|i: int, j: int| 0 <= i < j < after.len() implies transaction_less(
            after[i],
            after[j],
        ) by {
            if j == ts.len() && i < ts.len() - 1 {
                lemma_transaction_less_transitive(ts[i], ts.last(), t);
            }
        }
    } else {
        let front = ts.drop_last();
        let last = ts.last();
        lemma_with_transaction_sorted(front, t);
        lemma_transaction_less_total(last, t);
        let inner = with_transaction(front, t);
        let after = inner.push(last);
        assert forall|i: int, j: int| 0 <= i < j < after.len() implies transaction_less(
            after[i],
            after[j],
        ) by {
            if j == inner.len() {
                lemma_with_transaction_holds(front, t, inner[i]);
                assert(inner.contains(inner[i]));
                if inner[i] != t {
                    let k = choose|k: int| 0 <= k < front.len() && front[k] == inner[i];
                    assert(transaction_less(ts[k], ts[ts.len() - 1]));
                }
            }
        }
    }
}

/// In a sorted run nothing occurs twice.
pub proof fn lemma_sorted_distinct(ts: Seq<TransactionView>)
    requires
        sorted(ts),
    ensures
        forall|i: int, j: int| 0 <= i < j < ts.len() ==> ts[i] != ts[j],
{
    assert forall|i: int, j: int| 0 <= i < j < ts.len() implies ts[i] != ts[j] by {
        assert(transaction_less(ts[i], ts[j]));
    }
}

/// Two sorted runs that hold the same transactions are the same run.
pub proof fn lemma_sorted_unique(x: Seq<TransactionView>, y: Seq<TransactionView>)
    requires
        sorted(x),
        sorted(y),
        forall|e: TransactionView| x.contains(e) <==> y.contains(e),
    ensures
        x == y,
    decreases x.len(),
{
    if x.len() == 0 {
        if y.len() > 0 {
            assert(y.contains(y[0]));
        }
        assert(x =~= y);
    } else {
        let a = x.last();
        assert(x[x.len() - 1] == a);
        assert(x.contains(a));
        assert(y.contains(a));
        let b = y.last();
        assert(y[y.len() - 1] == b);
        assert(y.contains(b));
        let i = choose|i: int| 0 <= i < y.len() && y[i] == a;
        let j = choose|j: int| 0 <= j < x.len() && x[j] == b;
        if a != b {
            assert(transaction_less(y[i], y[y.len() - 1]));
            assert(transaction_less(x[j], x[x.len() - 1]));
            lemma_transaction_less_transitive(a, b, a);
        }
        let xf = x.drop_last();
        let yf = y.drop_last();
        assert forall|e: TransactionView| xf.contains(e) <==> yf.contains(e) by {
            if xf.contains(e) {
                let k = choose|k: int| 0 <= k < xf.len() && xf[k] == e;
                assert(x[k] == e);
                assert(transaction_less(x[k], x[x.len() - 1]));
                assert(x.contains(e));
                let m = choose|m: int| 0 <= m < y.len() && y[m] == e;
                assert(yf[m] == e);
            }
            if yf.contains(e) {
                let k = choose|k: int| 0 <= k < yf.len() && yf[k] == e;
                assert(y[k] == e);
                assert(transaction_less(y[k], y[y.len() - 1]));
                assert(y.contains(e));
                let m = choose|m: int| 0 <= m < x.len() && x[m] == e;
                assert(xf[m] == e);
            }
        }
        assert forall|p: int, q: int| 0 <= p < q < xf.len() implies transaction_less(
            xf[p],
            xf[q],
        ) by {
            assert(transaction_less(x[p], x[q]));
        }
        assert forall|p: int, q: int| 0 <= p < q < yf.len() implies transaction_less(
            yf[p],
            yf[q],
        ) by {
            assert(transaction_less(y[p], y[q]));
        }
        lemma_sorted_unique(xf, yf);
        assert(x =~= xf.push(a));
        assert(y =~= yf.push(b));
    }
}

/// The order in which two transactions are added to a sorted run does not
/// matter: the run that results is the same.
pub proof fn lemma_with_transaction_commutes(
    ts: Seq<TransactionView>,
    a: TransactionView,
    b: TransactionView,
)
    requires
        sorted(ts),
    ensures
        with_transaction(with_transaction(ts, a), b) == with_transaction(
            with_transaction(ts, b),
            a,
        ),
{
    let x = with_transaction(with_transaction(ts, a), b);
    let y = with_transaction(with_transaction(ts, b), a);
    lemma_with_transaction_sorted(ts, a);
    lemma_with_transaction_sorted(with_transaction(ts, a), b);
    lemma_with_transaction_sorted(ts, b);
    lemma_with_transaction_sorted(with_transaction(ts, b), a);
    assert forall|e: TransactionView| x.contains(e) <==> y.contains(e) by {
        lemma_with_transaction_holds(ts, a, e);
        lemma_with_transaction_holds(with_transaction(ts, a), b, e);
        lemma_with_transaction_holds(ts, b, e);
        lemma_with_transaction_holds(with_transaction(ts, b), a, e);
    }
    lemma_sorted_unique(x, y);
}

/// Adding a transaction a second time changes nothing.
pub proof fn lemma_with_transaction_idempotent(ts: Seq<TransactionView>, t: TransactionView)
    requires
        sorted(ts),
    ensures
        with_transaction(with_transaction(ts, t), t) == with_transaction(ts, t),
{
    let x = with_transaction(with_transaction(ts, t), t);
    let y = with_transaction(ts, t);
    lemma_with_transaction_sorted(ts, t);
    lemma_with_transaction_sorted(y, t);
    assert forall|e: TransactionView| x.contains(e) <==> y.contains(e) by {
        lemma_with_transaction_holds(ts, t, e);
        lemma_with_transaction_holds(y, t, e);
    }
    lemma_sorted_unique(x, y);
}

impl Transaction {
    /// A transfer of `amount` from `sender` to `recipient`.
    pub fn new(sender: String, recipient: String, amount: u64) -> (t: Transaction)
        ensures
            t@ == (TransactionView { sender: sender@, recipient: recipient@, amount }),
    {
        Transaction { sender, recipient, amount }
    }

    /// Whether the two transactions have the same sender, recipient and amount.
    pub fn same(&self, other: &Transaction) -> (r: bool)
        ensures
            r == (self@ == other@),
    {
        let r = self.sender == other.sender && self.recipient == other.recipient && self.amount
            == other.amount;
        assert(r == (self@ == other@)) by {
            if r {
                assert(self@.sender =~= other@.sender);
                assert(self@.recipient =~= other@.recipient);
            }
        }
        r
    }

    /// How this transaction stands to `other` in the order of transactions.
    pub fn compare(&self, other: &Transaction) -> (r: Sign)
        ensures
            r == transaction_sign(self@, other@),
    {
        match compare_bytes(self.sender.as_str().as_bytes(), other.sender.as_str().as_bytes()) {
            Sign::Less => Sign::Less,
            Sign::Greater => Sign::Greater,
            Sign::Same => match compare_bytes(
                self.recipient.as_str().as_bytes(),
                other.recipient.as_str().as_bytes(),
            ) {
                Sign::Less => Sign::Less,
                Sign::Greater => Sign::Greater,
                Sign::Same => {
                    proof {
                        lemma_text_bytes_injective(self@.sender, other@.sender);
                        lemma_text_bytes_injective(self@.recipient, other@.recipient);
                    }
                    if self.amount < other.amount {
                        Sign::Less
                    } else if self.amount > other.amount {
                        Sign::Greater
                    } else {
                        Sign::Same
                    }
                },
            },
        }
    }
}

/// Adds `t` to `pending` at its place in the order, unless a transaction
/// with the same fields is met there.
pub fn insert_transaction(pending: &mut Vec<Transaction>, t: Transaction)
    ensures
        transaction_views(final(pending)@) == with_transaction(
            transaction_views(old(pending)@),
            t@,
        ),
        sorted(transaction_views(old(pending)@)) ==> sorted(transaction_views(final(pending)@)),
{
    let ghost before = transaction_views(pending@);
    proof {
        if sorted(before) {
            lemma_with_transaction_sorted(before, t@);
        }
    }
    let mut p: usize = pending.len();
    let mut placed = false;
    while p > 0 && !placed
        invariant
            placed ==> p > 0 && transaction_less(before[p - 1], t@),
            0 <= p <= pending@.len(),
            *pending == *old(pending),
            before == transaction_views(pending@),
            forall|k: int| p <= k < before.len() ==> transaction_sign(before[k], t@) == Sign::Greater,
        decreases
                (if placed {
                    0int
                } else {
                    p + 1
                }),
    {
        assert(before[p - 1] == pending@[p - 1]@);
        match pending[p - 1].compare(&t) {
            Sign::Same => {
                proof {
                    lemma_met_at(before, t@, p - 1);
                }
                return ;
            },
            Sign::Less => {
                placed = true;
            },
            Sign::Greater => {
                p -= 1;
            },
        }
    }
    proof {
        lemma_put_at(before, t@, p as int);
    }
    pending.insert(p, t);
    assert(transaction_views(pending@) =~= before.insert(p as int, t@));
}

} // verus!
