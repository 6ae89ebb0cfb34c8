use vstd::prelude::*;

verus! {

/// Whether bit `b` of `m` is set.
pub open spec fn bit_set(m: u64, b: u64) -> bool {
    (m >> b) & 1 == 1
}

/// Whether some card of `cards[first..end]` is the card `b`.
pub open spec fn holds_card(cards: Seq<u8>, first: int, end: int, b: u64) -> bool {
    exists|n: int| first <= n < end && #[trigger] cards[n] as u64 == b
}

proof fn lemma_set_bit(m: u64, c: u64, b: u64)
    requires
        c < 64,
        b < 64,
    ensures
        ((m | (1u64 << c)) >> b) & 1 == 1 <==> ((m >> b) & 1 == 1 || b == c),
{
    assert(((m | (1u64 << c)) >> b) & 1 == 1 <==> ((m >> b) & 1 == 1 || b == c)) by (bit_vector)
        requires
            c < 64,
            b < 64,
    ;
}

proof fn lemma_no_bit(b: u64)
    requires
        b < 64,
    ensures
        (0u64 >> b) & 1 != 1,
{
    assert((0u64 >> b) & 1 != 1) by (bit_vector);
}

/// The board as a card mask: bit `c` is set exactly when card `c` lies among
/// `cards[first..]`, the cards that follow the private ones.
pub fn board_mask(cards: &[u8], first: usize) -> (r: u64)
    requires
        forall|n: int| first <= n < cards@.len() ==> #[trigger] cards@[n] < 64,
    ensures
        forall|b: u64| b < 64 ==> (bit_set(r, b) <==> holds_card(cards@, first as int, cards@.len() as int, b)),
{
    let mut mask: u64 = 0;
    let mut i: usize = first;
    proof {
        assert forall|b: u64| b < 64 implies (bit_set(mask, b) <==> holds_card(cards@, first as int, i as int, b)) by {
            lemma_no_bit(b);
        }
    }
    while i < cards.len()
        invariant
            first <= i,
            i <= cards@.len() || i == first,
            forall|n: int| first <= n < cards@.len() ==> #[trigger] cards@[n] < 64,
            forall|b: u64| b < 64 ==> (bit_set(mask, b) <==> holds_card(cards@, first as int, i as int, b)),
        decreases cards.len() - i,
    {
        let c: u64 = cards[i] as u64;
        let ghost old_mask = mask;
        assert(cards@[i as int] < 64);
        mask = mask | (1u64 << c);
        assert(mask == old_mask | (1u64 << c));
        proof {
            assert forall|b: u64| b < 64 implies (bit_set(mask, b) <==> holds_card(cards@, first as int, i + 1, b)) by {
                lemma_set_bit(old_mask, c, b);
                assert(bit_set(old_mask, b) == holds_card(cards@, first as int, i as int, b));
                assert(bit_set(mask, b) == (bit_set(old_mask, b) || b == c));
                if holds_card(cards@, first as int, i as int, b) {
                    let n = choose|n: int| first <= n < i && #[trigger] cards@[n] as u64 == b;
                    assert(first <= n < i + 1 && cards@[n] as u64 == b);
                }
                if b == c {
                    assert(cards@[i as int] as u64 == b);
                }
                if holds_card(cards@, first as int, i + 1, b) {
                    let n = choose|n: int| first <= n < i + 1 && #[trigger] cards@[n] as u64 == b;
                    if n < i {
                        assert(holds_card(cards@, first as int, i as int, b));
                    }
                }
            }
        }
        i = i + 1;
    }
    proof {
        assert forall|b: u64| b < 64 implies (bit_set(mask, b) <==> holds_card(cards@, first as int, cards@.len() as int, b)) by {
            if holds_card(cards@, first as int, i as int, b) {
                let n = choose|n: int| first <= n < i && #[trigger] cards@[n] as u64 == b;
                assert(first <= n < cards@.len() && cards@[n] as u64 == b);
            }
            if holds_card(cards@, first as int, cards@.len() as int, b) {
                let n = choose|n: int| first <= n < cards@.len() && #[trigger] cards@[n] as u64 == b;
                assert(first <= n < i && cards@[n] as u64 == b);
            }
        }
    }
    mask
}

} // verus!
