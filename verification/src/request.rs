//! A scoring request, its numbers in whatever type the caller reads them.
use smallvec::SmallVec;
use vstd::prelude::*;

use crate::scanning::same_bytes;

verus! {

/// A list of merchants, in a `smallvec::SmallVec` with room for four in place; `merchants_in` names
/// what it holds.
#[verifier::external_body]
pub struct MerchantList<'a> {
    items: SmallVec<[&'a str; 4]>,
}

/// The merchants that a list holds, in order.
pub uninterp spec fn merchants_in(list: MerchantList<'_>) -> Seq<Seq<char>>;

/// An empty list, from `SmallVec::new`.
#[verifier::external_body]
fn empty_list<'a>() -> (list: MerchantList<'a>)
    ensures
        merchants_in(list) == Seq::<Seq<char>>::empty(),
{
    MerchantList { items: SmallVec::new() }
}

/// Adds a merchant at the end of a list with `SmallVec::push`; the bound keeps the capacity that the
/// list grows to within what can be allocated.
#[verifier::external_body]
fn push_merchant<'a>(list: &mut MerchantList<'a>, merchant: &'a str)
    requires
        merchants_in(*old(list)).len() < usize::MAX / 64,
    ensures
        merchants_in(*final(list)) == merchants_in(*old(list)).push(merchant@),
{
    list.items.push(merchant);
}

/// The merchants of a list as a slice, with `SmallVec::as_slice`: it has the items of the list in
/// their order.
#[verifier::external_body]
fn merchant_slice<'a, 'b>(list: &'b MerchantList<'a>) -> (items: &'b [&'a str])
    ensures
        items@.len() == merchants_in(*list).len(),
        forall|i: int| 0 <= i < items@.len() ==> (#[trigger] items@[i])@ == merchants_in(*list)[i],
{
    list.items.as_slice()
}

impl<'a> MerchantList<'a> {
    /// The list of the given merchants.
    pub fn from_names(names: &[&'a str]) -> (list: MerchantList<'a>)
        requires
            names@.len() <= usize::MAX / 64,
        ensures
            merchants_in(list) == Seq::new(names@.len(), |i: int| names@[i]@),
    {
        let mut list: MerchantList<'a> = empty_list();
        let mut i: usize = 0;
        while i < names.len()
            invariant
                i <= names@.len() <= usize::MAX / 64,
                merchants_in(list) == Seq::new(i as nat, |k: int| names@[k]@),
            decreases names@.len() - i,
        {
            push_merchant(&mut list, names[i]);
            assert(merchants_in(list) =~= Seq::new((i + 1) as nat, |k: int| names@[k]@));
            i = i + 1;
        }
        list
    }
}

/// A scoring request.
pub struct FraudRequest<'a, N> {
    pub transaction: Transaction<'a, N>,
    pub customer: Customer<'a, N>,
    pub merchant: Merchant<'a, N>,
    pub terminal: Terminal<N>,
    pub last_transaction: Option<LastTransaction<'a, N>>,
}

/// The transaction to score.
pub struct Transaction<'a, N> {
    pub amount: N,
    pub installments: u16,
    pub requested_at: &'a str,
}

/// The customer who makes it.
pub struct Customer<'a, N> {
    pub avg_amount: N,
    pub tx_count_24h: u16,
    pub known_merchants: MerchantList<'a>,
}

/// The merchant who receives it.
pub struct Merchant<'a, N> {
    pub id: &'a str,
    pub mcc: &'a str,
    pub avg_amount: N,
}

/// The terminal where it takes place.
pub struct Terminal<N> {
    pub is_online: bool,
    pub card_present: bool,
    pub km_from_home: N,
}

/// The customer's earlier transaction.
pub struct LastTransaction<'a, N> {
    pub timestamp: &'a str,
    pub km_from_current: N,
}

/// Whether two texts are equal.
fn same_text(left: &str, right: &str) -> (same: bool)
    ensures
        same == (left@ == right@),
{
    proof {
        vstd::utf8::encode_utf8_decode_utf8(left@);
        vstd::utf8::encode_utf8_decode_utf8(right@);
    }
    same_bytes(left.as_bytes(), right.as_bytes())
}

impl<'a, N> FraudRequest<'a, N> {
    /// The customer has bought from the merchant before.
    pub open spec fn knows_merchant(&self) -> bool {
        merchants_in(self.customer.known_merchants).contains(self.merchant.id@)
    }

    /// Whether the customer has bought from the merchant before.
    pub fn merchant_known(&self) -> (known: bool)
        ensures
            known == self.knows_merchant(),
    {
        let items: &[&str] = merchant_slice(&self.customer.known_merchants);
        let ghost names = merchants_in(self.customer.known_merchants);
        let mut i: usize = 0;
        while i < items.len()
            invariant
                i <= items@.len(),
                names == merchants_in(self.customer.known_merchants),
                items@.len() == names.len(),
                forall|k: int| 0 <= k < items@.len() ==> (#[trigger] items@[k])@ == names[k],
                forall|k: int| 0 <= k < i ==> #[trigger] names[k] != self.merchant.id@,
            decreases items@.len() - i,
        {
            if same_text(items[i], self.merchant.id) {
                assert(names[i as int] == self.merchant.id@);
                return true;
            }
            i = i + 1;
        }
        false
    }
}

} // verus!
