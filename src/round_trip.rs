//! Decoding what the encoder wrote gives back the value.
use vstd::prelude::*;
use crate::wire::{
    Wire, WireValue, nat_text, int_text, enc, enc_bytes, enc_items, enc_pairs, INT_START,
    LIST_START, DICT_START, END, COLON,
};
use crate::decode::{
    Parsed, is_digit, all_digits, digits_value, find_from, int_of_text, parse_bytes,
    parse_value, parse_list, parse_dict,
};

verus! {

/// `e` stands in `s` from position `i` on.
pub open spec fn stands_at(s: Seq<u8>, i: int, e: Seq<u8>) -> bool {
    0 <= i && i + e.len() <= s.len() && s.subrange(i, i + e.len()) == e
}

proof fn lemma_stands_split(s: Seq<u8>, i: int, a: Seq<u8>, b: Seq<u8>)
    requires
        stands_at(s, i, a + b),
    ensures
        stands_at(s, i, a),
        stands_at(s, i + a.len(), b),
{
    let whole = s.subrange(i, i + (a + b).len());
    assert(s.subrange(i, i + a.len()) =~= whole.subrange(0, a.len() as int));
    assert(whole.subrange(0, a.len() as int) =~= a);
    assert(s.subrange(i + a.len(), i + a.len() + b.len()) =~= whole.subrange(
        a.len() as int,
        (a + b).len() as int,
    ));
    assert(whole.subrange(a.len() as int, (a + b).len() as int) =~= b);
}

proof fn lemma_stands_index(s: Seq<u8>, i: int, e: Seq<u8>, m: int)
    requires
        stands_at(s, i, e),
        0 <= m < e.len(),
    ensures
        s[i + m] == e[m],
{
    assert(s.subrange(i, i + e.len())[m] == s[i + m]);
}

proof fn lemma_nat_text(n: nat)
    ensures
        nat_text(n).len() > 0,
        all_digits(nat_text(n)),
        digits_value(nat_text(n)) == n,
    decreases n,
{
    if n >= 10 {
        lemma_nat_text(n / 10);
        let t = nat_text(n);
        assert(t[t.len() - 1] == (48 + n % 10) as u8);
        assert(n == (n / 10) * 10 + n % 10);
        assert(t.subrange(0, t.len() - 1) =~= nat_text(n / 10));
        assert forall|k: int| 0 <= k < t.len() implies is_digit(#[trigger] t[k]) by {
            if k < t.len() - 1 {
                assert(t[k] == nat_text(n / 10)[k]);
            }
        }
    } else {
        let t = nat_text(n);
        assert(t.subrange(0, 0) =~= Seq::<u8>::empty());
        assert(digits_value(Seq::<u8>::empty()) == 0);
        assert(t[0] == (48 + n) as u8);
    }
}

proof fn lemma_find(s: Seq<u8>, i: int, k: int, b: u8)
    requires
        0 <= i <= k < s.len(),
        s[k] == b,
        forall|m: int| i <= m < k ==> s[m] != b,
    ensures
        find_from(s, i, b) == Some(k),
    decreases k - i,
{
    if i < k {
        lemma_find(s, i + 1, k, b);
    }
}

proof fn lemma_int_text(n: i64)
    ensures
        int_of_text(int_text(n as int)) == Some(n),
        int_text(n as int).len() > 0,
        forall|m: int| 0 <= m < int_text(n as int).len() ==> #[trigger] int_text(n as int)[m] != END,
{
    let t = int_text(n as int);
    if n < 0 {
        let d = nat_text((-n) as nat);
        lemma_nat_text((-n) as nat);
        assert(t.subrange(1, t.len() as int) =~= d);
        assert forall|m: int| 0 <= m < t.len() implies #[trigger] t[m] != END by {
            if m > 0 {
                assert(t[m] == d[m - 1]);
                assert(is_digit(d[m - 1]));
            }
        }
    } else {
        lemma_nat_text(n as nat);
        assert(is_digit(t[0]));
        assert forall|m: int| 0 <= m < t.len() implies #[trigger] t[m] != END by {
            assert(is_digit(t[m]));
        }
    }
}

proof fn lemma_parse_bytes_enc(b: Seq<u8>, s: Seq<u8>, i: int)
    requires
        stands_at(s, i, enc_bytes(b)),
    ensures
        parse_bytes(s, i) == Parsed::Done(Wire::Bytes(b), i + enc_bytes(b).len()),
        is_digit(s[i]),
{
    let t = nat_text(b.len());
    lemma_nat_text(b.len());
    lemma_stands_split(s, i, t + seq![COLON], b);
    lemma_stands_split(s, i, t, seq![COLON]);
    let k = i + t.len();
    lemma_stands_index(s, i, t, 0);
    lemma_stands_index(s, k, seq![COLON], 0);
    assert forall|m: int| i <= m < k implies s[m] != COLON by {
        lemma_stands_index(s, i, t, m - i);
        assert(is_digit(t[m - i]));
    }
    lemma_find(s, i, k, COLON);
    assert(s.subrange(i, k) == t);
    assert(s.subrange(k + 1, k + 1 + b.len()) == b);
}

proof fn lemma_enc_first(w: Wire)
    ensures
        enc(w).len() > 0,
        enc(w)[0] != END,
        enc(w)[0] == INT_START || enc(w)[0] == LIST_START || enc(w)[0] == DICT_START || is_digit(
            enc(w)[0],
        ),
{
    match w {
        Wire::Bytes(b) => {
            lemma_nat_text(b.len());
            assert(enc(w)[0] == nat_text(b.len())[0]);
        },
        _ => {},
    }
}

/// Parsing stops after the encodings of the first `k` items of a list.
proof fn lemma_parse_items(items: Seq<Wire>, k: int, s: Seq<u8>, j: int)
    requires
        0 <= k <= items.len(),
        stands_at(s, j, enc_items(items) + seq![END]),
    ensures
        stands_at(s, j + enc_items(items.take(k)).len(), enc_items(items.skip(k)) + seq![END]),
        parse_list(s, j, Seq::empty()) == parse_list(
            s,
            j + enc_items(items.take(k)).len(),
            items.take(k),
        ),
    decreases items, k,
{
    lemma_enc_items_split(items, k);
    assert(enc_items(items) + seq![END] =~= enc_items(items.take(k)) + (enc_items(items.skip(k))
        + seq![END]));
    lemma_stands_split(s, j, enc_items(items.take(k)), enc_items(items.skip(k)) + seq![END]);
    if k == 0 {
        assert(items.take(0) =~= Seq::<Wire>::empty());
    } else {
        lemma_parse_items(items, k - 1, s, j);
        let p = j + enc_items(items.take(k - 1)).len();
        let w = items[k - 1];
        lemma_enc_items_split(items.skip(k - 1), 1);
        assert(items.skip(k - 1).take(1) =~= seq![w]);
        assert(items.skip(k - 1).skip(1) =~= items.skip(k));
        assert(enc_items(seq![w]) == enc(w)) by {
            assert(seq![w].subrange(0, 0) =~= Seq::<Wire>::empty());
            assert(enc_items(Seq::<Wire>::empty()) == Seq::<u8>::empty());
            assert(Seq::<u8>::empty() + enc(w) =~= enc(w));
        }
        assert(enc_items(items.skip(k - 1)) + seq![END] =~= enc(w) + (enc_items(items.skip(k))
            + seq![END]));
        lemma_stands_split(s, p, enc(w), enc_items(items.skip(k)) + seq![END]);
        lemma_parse_enc(w, s, p);
        lemma_enc_first(w);
        lemma_stands_index(s, p, enc(w), 0);
        assert(items.take(k - 1).push(w) =~= items.take(k));
        lemma_enc_items_split(items.take(k), k - 1);
        assert(items.take(k).take(k - 1) =~= items.take(k - 1));
        assert(items.take(k).skip(k - 1) =~= seq![w]);
    }
}

proof fn lemma_enc_items_split(items: Seq<Wire>, k: int)
    requires
        0 <= k <= items.len(),
    ensures
        enc_items(items) == enc_items(items.take(k)) + enc_items(items.skip(k)),
    decreases items.len() - k,
{
    if k == items.len() {
        assert(items.take(k) =~= items);
        assert(items.skip(k) =~= Seq::<Wire>::empty());
    } else {
        lemma_enc_items_split(items, k + 1);
        let w = items[k];
        assert(items.take(k + 1).subrange(0, k) =~= items.take(k));
        assert(items.skip(k).subrange(1, items.skip(k).len() as int) =~= items.skip(k + 1));
        lemma_enc_items_front(items.skip(k));
    }
}

proof fn lemma_enc_items_front(items: Seq<Wire>)
    requires
        items.len() > 0,
    ensures
        enc_items(items) == enc(items[0]) + enc_items(items.subrange(1, items.len() as int)),
    decreases items.len(),
{
    if items.len() == 1 {
        assert(items.subrange(0, 0) =~= Seq::<Wire>::empty());
        assert(items.subrange(1, 1) =~= Seq::<Wire>::empty());
    } else {
        let init = items.subrange(0, items.len() - 1);
        lemma_enc_items_front(init);
        assert(init.subrange(1, init.len() as int) =~= items.subrange(1, items.len() as int).subrange(
            0,
            items.len() - 2,
        ));
        assert(items.subrange(1, items.len() as int)[items.len() - 2] == items[items.len() - 1]);
    }
}

/// The value whose canonical encoding stands at `i` is parsed back, and parsing
/// stops just past it.
proof fn lemma_parse_enc(w: Wire, s: Seq<u8>, i: int)
    requires
        stands_at(s, i, enc(w)),
    ensures
        parse_value(s, i) == Parsed::Done(w, i + enc(w).len()),
    decreases w, 0int,
{
    lemma_enc_first(w);
    lemma_stands_index(s, i, enc(w), 0);
    match w {
        Wire::Int(n) => {
            let t = int_text(n as int);
            lemma_int_text(n);
            lemma_stands_split(s, i, seq![INT_START] + t, seq![END]);
            lemma_stands_split(s, i, seq![INT_START], t);
            let k = i + 1 + t.len();
            assert forall|m: int| i + 1 <= m < k implies s[m] != END by {
                lemma_stands_index(s, i + 1, t, m - i - 1);
            }
            lemma_stands_index(s, k, seq![END], 0);
            lemma_find(s, i + 1, k, END);
            assert(s.subrange(i + 1, k) == t);
        },
        Wire::Bytes(b) => {
            lemma_parse_bytes_enc(b, s, i);
        },
        Wire::List(items) => {
            assert(enc(w) =~= seq![LIST_START] + (enc_items(items) + seq![END]));
            lemma_stands_split(s, i, seq![LIST_START], enc_items(items) + seq![END]);
            lemma_stands_split(s, i + 1, enc_items(items), seq![END]);
            lemma_parse_items(items, items.len() as int, s, i + 1);
            assert(items.take(items.len() as int) =~= items);
            assert(items.skip(items.len() as int) =~= Seq::<Wire>::empty());
            let q = i + 1 + enc_items(items).len();
            lemma_stands_index(s, q, seq![END], 0);
        },
        Wire::Dict(pairs) => {
            assert(enc(w) =~= seq![DICT_START] + (enc_pairs(pairs) + seq![END]));
            lemma_stands_split(s, i, seq![DICT_START], enc_pairs(pairs) + seq![END]);
            lemma_stands_split(s, i + 1, enc_pairs(pairs), seq![END]);
            lemma_parse_pairs(pairs, pairs.len() as int, s, i + 1);
            assert(pairs.take(pairs.len() as int) =~= pairs);
            assert(pairs.skip(pairs.len() as int) =~= Seq::<(Seq<u8>, Wire)>::empty());
            let q = i + 1 + enc_pairs(pairs).len();
            lemma_stands_index(s, q, seq![END], 0);
        },
    }
}

pub open spec fn enc_pair(p: (Seq<u8>, Wire)) -> Seq<u8> {
    enc_bytes(p.0) + enc(p.1)
}

proof fn lemma_enc_pairs_front(pairs: Seq<(Seq<u8>, Wire)>)
    requires
        pairs.len() > 0,
    ensures
        enc_pairs(pairs) == enc_pair(pairs[0]) + enc_pairs(pairs.subrange(1, pairs.len() as int)),
    decreases pairs.len(),
{
    if pairs.len() == 1 {
        assert(pairs.subrange(0, 0) =~= Seq::<(Seq<u8>, Wire)>::empty());
        assert(pairs.subrange(1, 1) =~= Seq::<(Seq<u8>, Wire)>::empty());
    } else {
        let init = pairs.subrange(0, pairs.len() - 1);
        lemma_enc_pairs_front(init);
        assert(init.subrange(1, init.len() as int) =~= pairs.subrange(1, pairs.len() as int).subrange(
            0,
            pairs.len() - 2,
        ));
        assert(pairs.subrange(1, pairs.len() as int)[pairs.len() - 2] == pairs[pairs.len() - 1]);
    }
}

proof fn lemma_enc_pairs_split(pairs: Seq<(Seq<u8>, Wire)>, k: int)
    requires
        0 <= k <= pairs.len(),
    ensures
        enc_pairs(pairs) == enc_pairs(pairs.take(k)) + enc_pairs(pairs.skip(k)),
    decreases pairs.len() - k,
{
    if k == pairs.len() {
        assert(pairs.take(k) =~= pairs);
        assert(pairs.skip(k) =~= Seq::<(Seq<u8>, Wire)>::empty());
    } else {
        lemma_enc_pairs_split(pairs, k + 1);
        assert(pairs.take(k + 1).subrange(0, k) =~= pairs.take(k));
        assert(pairs.skip(k).subrange(1, pairs.skip(k).len() as int) =~= pairs.skip(k + 1));
        lemma_enc_pairs_front(pairs.skip(k));
    }
}

/// Parsing stops after the encodings of the first `k` pairs of a map.
proof fn lemma_parse_pairs(pairs: Seq<(Seq<u8>, Wire)>, k: int, s: Seq<u8>, j: int)
    requires
        0 <= k <= pairs.len(),
        stands_at(s, j, enc_pairs(pairs) + seq![END]),
    ensures
        stands_at(s, j + enc_pairs(pairs.take(k)).len(), enc_pairs(pairs.skip(k)) + seq![END]),
        parse_dict(s, j, Seq::empty()) == parse_dict(
            s,
            j + enc_pairs(pairs.take(k)).len(),
            pairs.take(k),
        ),
    decreases pairs, k,
{
    lemma_enc_pairs_split(pairs, k);
    assert(enc_pairs(pairs) + seq![END] =~= enc_pairs(pairs.take(k)) + (enc_pairs(pairs.skip(k))
        + seq![END]));
    lemma_stands_split(s, j, enc_pairs(pairs.take(k)), enc_pairs(pairs.skip(k)) + seq![END]);
    if k == 0 {
        assert(pairs.take(0) =~= Seq::<(Seq<u8>, Wire)>::empty());
    } else {
        lemma_parse_pairs(pairs, k - 1, s, j);
        let p = j + enc_pairs(pairs.take(k - 1)).len();
        let pr = pairs[k - 1];
        lemma_enc_pairs_front(pairs.skip(k - 1));
        assert(pairs.skip(k - 1).subrange(1, pairs.skip(k - 1).len() as int) =~= pairs.skip(k));
        assert(enc_pairs(pairs.skip(k - 1)) + seq![END] =~= enc_bytes(pr.0) + (enc(pr.1) + (
        enc_pairs(pairs.skip(k)) + seq![END])));
        lemma_stands_split(s, p, enc_bytes(pr.0), enc(pr.1) + (enc_pairs(pairs.skip(k)) + seq![END]));
        let after_key = p + enc_bytes(pr.0).len();
        lemma_stands_split(s, after_key, enc(pr.1), enc_pairs(pairs.skip(k)) + seq![END]);
        lemma_parse_bytes_enc(pr.0, s, p);
        assert(decreases_to!(pairs => pairs[k - 1]));
        assert(decreases_to!(pairs[k - 1] => pairs[k - 1].1));
        lemma_parse_enc(pr.1, s, after_key);
        lemma_enc_first(pr.1);
        assert(pairs.take(k - 1).push(pr) =~= pairs.take(k));
        lemma_enc_pairs_split(pairs.take(k), k - 1);
        assert(pairs.take(k).take(k - 1) =~= pairs.take(k - 1));
        assert(pairs.take(k).skip(k - 1) =~= seq![pr]);
        assert(enc_pairs(seq![pr]) == enc_bytes(pr.0) + enc(pr.1)) by {
            assert(seq![pr].subrange(0, 0) =~= Seq::<(Seq<u8>, Wire)>::empty());
            assert(enc_pairs(Seq::<(Seq<u8>, Wire)>::empty()) == Seq::<u8>::empty());
            assert(Seq::<u8>::empty() + enc_bytes(pr.0) =~= enc_bytes(pr.0));
        }
    }
}

/// Decoding the canonical encoding of any value, whatever bytes follow it, gives
/// the value back and stops just past its encoding.
pub proof fn lemma_round_trip(v: WireValue, rest: Seq<u8>)
    ensures
        parse_value(enc(v@) + rest, 0) == Parsed::Done(v@, enc(v@).len() as int),
{
    let s = enc(v@) + rest;
    assert(s.subrange(0, enc(v@).len() as int) =~= enc(v@));
    lemma_parse_enc(v@, s, 0);
}

} // verus!
