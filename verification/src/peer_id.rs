//! This client's peer id: the client prefix and twelve random digits.
use crate::text::{digit_char, push_char};
use rand::Rng;
use vstd::prelude::*;

verus! {

/// The prefix naming the client.
pub open spec fn client_prefix() -> Seq<char> {
    seq!['-', 'q', 'B', '5', '0', '0', '0', '-']
}

/// `n` numbers drawn uniformly from `0..10` (`Uniform::new(0u8, 10)`
/// sampled from the thread's generator).
#[verifier::external_body]
fn random_digits(n: usize) -> (digits: Vec<u8>)
    ensures
        digits@.len() == n,
        forall|i: int| 0 <= i < n ==> #[trigger] digits@[i] < 10,
{
    rand::thread_rng().sample_iter(&rand::distributions::Uniform::new(0u8, 10)).take(n).collect()
}

/// The peer id for the given digits: the client prefix, then each digit
/// as an ASCII character.
pub fn peer_id_from_digits(digits: &Vec<u8>) -> (id: String)
    requires
        forall|i: int| 0 <= i < digits@.len() ==> #[trigger] digits@[i] < 10,
    ensures
        id@ == client_prefix() + Seq::new(digits@.len(), |i: int| digit_char(digits@[i] as int)),
{
    let mut id = String::new();
    push_char(&mut id, '-');
    push_char(&mut id, 'q');
    push_char(&mut id, 'B');
    push_char(&mut id, '5');
    push_char(&mut id, '0');
    push_char(&mut id, '0');
    push_char(&mut id, '0');
    push_char(&mut id, '-');
    assert(id@ =~= client_prefix());
    let mut i: usize = 0;
    while i < digits.len()
        invariant
            i <= digits@.len(),
            forall|j: int| 0 <= j < digits@.len() ==> #[trigger] digits@[j] < 10,
            id@ == client_prefix() + Seq::new(i as nat, |j: int| digit_char(digits@[j] as int)),
        decreases digits@.len() - i,
    {
        let c = (digits[i] + 48u8) as char;
        push_char(&mut id, c);
        i = i + 1;
        assert(id@ =~= client_prefix() + Seq::new(i as nat, |j: int| digit_char(digits@[j] as int)));
    }
    id
}

/// A fresh peer id: the client prefix and twelve random decimal digits.
pub fn generate_peer_id() -> (id: String)
    ensures
        id@.len() == 20,
        id@.subrange(0, 8) == client_prefix(),
        forall|i: int| 8 <= i < 20 ==> '0' <= #[trigger] id@[i] <= '9',
{
    let digits = random_digits(12);
    let id = peer_id_from_digits(&digits);
    assert(id@.subrange(0, 8) =~= client_prefix());
    id
}

} // verus!
