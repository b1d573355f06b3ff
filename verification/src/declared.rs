//! Which entry of a `config.json` becomes which hyper-parameter.

use vstd::arithmetic::power2::{lemma_pow2_adds, pow2};
use vstd::prelude::*;

use crate::arith;
use crate::arith::Arith;
use crate::bits;
use crate::checkpoint;
use crate::checkpoint::FieldView;
use crate::nearest::PARTS;
use crate::quantize::distance;

verus! {

/// Whether `f` is the first field with a key.
pub open spec fn entry(fields: Seq<FieldView>, key: Seq<char>, f: FieldView) -> bool {
    exists|i: int|
        {
            &&& 0 <= i < fields.len()
            &&& #[trigger] fields[i] == f
            &&& f.key == key
            &&& forall|j: int| 0 <= j < i ==> (#[trigger] fields[j]).key != key
        }
}

/// Whether a count stands under a key.
pub open spec fn declares(fields: Seq<FieldView>, key: Seq<char>, n: usize) -> bool {
    exists|f: FieldView| #[trigger] entry(fields, key, f) && f.count is Some && f.count->Some_0 as usize == n
}

/// Whether no count stands under a key.
pub open spec fn undeclared(fields: Seq<FieldView>, key: Seq<char>) -> bool {
    forall|f: FieldView| #[trigger] entry(fields, key, f) ==> f.count is None
}

/// Whether a count is the one under a key, or a default if there is none.
pub open spec fn declares_or(
    fields: Seq<FieldView>,
    key: Seq<char>,
    n: usize,
    default: usize,
) -> bool {
    declares(fields, key, n) || (undeclared(fields, key) && n == default)
}

/// Whether a number in single precision is the one under a key, rounded, or a default
/// if there is none.
pub open spec fn numbers_or<A: Arith>(
    fields: Seq<FieldView>,
    key: Seq<char>,
    n: u32,
    default: u32,
) -> bool {
    ||| exists|f: FieldView| #[trigger]
        entry(fields, key, f) && f.number is Some && n == arith::narrow_of::<A>(f.number->Some_0)
    ||| (forall|f: FieldView| #[trigger] entry(fields, key, f) ==> f.number is None) && n == default
}

proof fn lemma_field(fields: Seq<FieldView>, key: Seq<char>)
    ensures
        match checkpoint::field_of(fields, key) {
            Some(f) => entry(fields, key, f),
            None => forall|i: int| 0 <= i < fields.len() ==> (#[trigger] fields[i]).key != key,
        },
    decreases fields.len(),
{
    if fields.len() > 0 {
        if fields[0].key == key {
            assert(fields[0] == fields[0]);
        } else {
            let rest = fields.drop_first();
            lemma_field(rest, key);
            match checkpoint::field_of(rest, key) {
                Some(f) => {
                    let i = choose|i: int|
                        {
                            &&& 0 <= i < rest.len()
                            &&& #[trigger] rest[i] == f
                            &&& f.key == key
                            &&& forall|j: int| 0 <= j < i ==> (#[trigger] rest[j]).key != key
                        };
                    assert(fields[i + 1] == f);
                    assert forall|j: int| 0 <= j < i + 1 implies (#[trigger] fields[j]).key != key by {
                        if j > 0 {
                            assert(rest[j - 1] == fields[j]);
                        }
                    }
                },
                None => {
                    assert forall|i: int| 0 <= i < fields.len() implies (#[trigger] fields[i]).key
                        != key by {
                        if i > 0 {
                            assert(rest[i - 1] == fields[i]);
                        }
                    }
                },
            }
        }
    }
}

/// A key has one first field.
proof fn lemma_entry_once(fields: Seq<FieldView>, key: Seq<char>, a: FieldView, b: FieldView)
    requires
        entry(fields, key, a),
        entry(fields, key, b),
    ensures
        a == b,
{
    let i = choose|i: int|
        {
            &&& 0 <= i < fields.len()
            &&& #[trigger] fields[i] == a
            &&& a.key == key
            &&& forall|j: int| 0 <= j < i ==> (#[trigger] fields[j]).key != key
        };
    let k = choose|i: int|
        {
            &&& 0 <= i < fields.len()
            &&& #[trigger] fields[i] == b
            &&& b.key == key
            &&& forall|j: int| 0 <= j < i ==> (#[trigger] fields[j]).key != key
        };
    if i < k {
        assert(fields[i].key != key);
    } else if k < i {
        assert(fields[k].key != key);
    }
}

proof fn lemma_count(fields: Seq<FieldView>, key: Seq<char>)
    ensures
        match checkpoint::count_at(fields, key) {
            Some(n) => declares(fields, key, n),
            None => undeclared(fields, key),
        },
{
    lemma_field(fields, key);
    match checkpoint::field_of(fields, key) {
        Some(f) => {
            assert forall|g: FieldView| #[trigger] entry(fields, key, g) implies g == f by {
                lemma_entry_once(fields, key, f, g);
            }
        },
        None => {
            assert forall|g: FieldView| #[trigger] entry(fields, key, g) implies false by {
                let i = choose|i: int| 0 <= i < fields.len() && #[trigger] fields[i] == g;
                assert(fields[i].key != key);
            }
        },
    }
}

proof fn lemma_number<A: Arith>(fields: Seq<FieldView>, key: Seq<char>, default: u32)
    ensures
        numbers_or::<A>(
            fields,
            key,
            match checkpoint::number_at::<A>(fields, key) {
                Some(n) => n,
                None => default,
            },
            default,
        ),
{
    lemma_field(fields, key);
    match checkpoint::field_of(fields, key) {
        Some(f) => {
            assert(entry(fields, key, f));
            assert forall|g: FieldView| #[trigger] entry(fields, key, g) implies g == f by {
                lemma_entry_once(fields, key, f, g);
            }
        },
        None => {
            assert forall|g: FieldView| #[trigger] entry(fields, key, g) implies false by {
                let i = choose|i: int| 0 <= i < fields.len() && #[trigger] fields[i] == g;
                assert(fields[i].key != key);
            }
        },
    }
}

/// The hyper-parameters are the entries of their names. Without an entry of their own,
/// there are as many key/value heads as heads, a head is as wide as the hidden size over
/// the number of heads, the context has 4096 positions, the base of the rotary
/// embedding is 10000, and the constant of normalization is a millionth.
pub proof fn law_config_is_declared<A: Arith>(f: Seq<FieldView>)
    requires
        checkpoint::early_error(f) is None,
        checkpoint::missing(f, "vocab_size"@) is None,
    ensures
        ({
            let c = checkpoint::config_of::<A>(f);
            let millionth = 0x3586_37BDu32;
            let ten_thousand = 0x461C_4000u32;
            &&& declares(f, "hidden_size"@, c.hidden_size)
            &&& declares(f, "intermediate_size"@, c.intermediate_size)
            &&& declares(f, "num_hidden_layers"@, c.n_layers)
            &&& declares(f, "num_attention_heads"@, c.heads.n_heads)
            &&& declares(f, "vocab_size"@, c.vocab_size)
            &&& declares_or(f, "num_key_value_heads"@, c.heads.n_kv_heads, c.heads.n_heads)
            &&& declares(f, "head_dim"@, c.heads.head_dim) || (undeclared(f, "head_dim"@) && (
            c.heads.n_heads > 0 ==> c.heads.head_dim * c.heads.n_heads <= c.hidden_size < (
            c.heads.head_dim + 1) * c.heads.n_heads))
            &&& declares_or(f, "max_position_embeddings"@, c.max_seq_len, 4096)
            &&& numbers_or::<A>(f, "rope_theta"@, c.rope_theta, ten_thousand)
            &&& bits::scaled_value(ten_thousand) == 10000 * pow2(150)
            &&& numbers_or::<A>(f, "rms_norm_eps"@, c.rms_norm_eps, millionth)
            &&& PARTS * distance(1_000_000 * bits::scaled_value(millionth), pow2(150) as int) <= pow2(
                150,
            )
        }),
{
    lemma_count(f, "hidden_size"@);
    lemma_count(f, "intermediate_size"@);
    lemma_count(f, "num_hidden_layers"@);
    lemma_count(f, "num_attention_heads"@);
    lemma_count(f, "vocab_size"@);
    lemma_count(f, "num_key_value_heads"@);
    lemma_count(f, "head_dim"@);
    lemma_count(f, "max_position_embeddings"@);
    lemma_number::<A>(f, "rope_theta"@, 0x461C_4000);
    lemma_number::<A>(f, "rms_norm_eps"@, 0x3586_37BD);
    let c = checkpoint::config_of::<A>(f);
    let hidden = c.hidden_size as int;
    let heads = c.heads.n_heads as int;
    if heads > 0 {
        let q = hidden / heads;
        vstd::arithmetic::div_mod::lemma_fundamental_div_mod(hidden, heads);
        assert(q * heads <= hidden < (q + 1) * heads) by (nonlinear_arith)
            requires
                hidden == heads * q + hidden % heads,
                0 <= hidden % heads < heads,
        ;
    }
    vstd::arithmetic::power2::lemma2_to64();
    vstd::arithmetic::power2::lemma2_to64_rest();
    lemma_pow2_adds(10, 140);
    lemma_pow2_adds(43, 107);
    let p = pow2(140) as int;
    assert(0x9C_4000 * p == 10000 * (0x400 * p)) by (nonlinear_arith);
    let q = pow2(107) as int;
    assert(pow2(43) == 0x800_0000_0000);
    assert(1_000_000 * (0x86_37BD * q) == 8_796_093_000_000 * q) by (nonlinear_arith);
    assert(0x800_0000_0000 * q - 8_796_093_000_000 * q == 22_208 * q) by (nonlinear_arith);
}

} // verus!
