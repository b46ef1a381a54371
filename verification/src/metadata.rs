//! Reading a serialized tokenizer out of model metadata.

use vstd::prelude::*;

verus! {

broadcast use vstd::string::group_string_axioms;

/// A metadata value as far as tokenizer lookup reads it: text, an array
/// whose elements are bytes where they are 8-bit integers (`None` where they
/// are anything else), or any other value.
#[derive(Debug, Clone, PartialEq, Eq)]
pub enum MetaValue {
    Text(String),
    Array(Vec<Option<u8>>),
    Other,
}

/// The bytes an array of elements spells, when every element is a byte.
pub open spec fn array_bytes(elems: Seq<Option<u8>>) -> Option<Seq<u8>>
    decreases elems.len(),
{
    if elems.len() == 0 {
        Some(seq![])
    } else {
        match (array_bytes(elems.drop_last()), elems.last()) {
            (Some(prefix), Some(b)) => Some(prefix.push(b)),
            _ => None,
        }
    }
}

/// The bytes a metadata value holds: the UTF-8 encoding of text, or the
/// bytes of an array made only of bytes.
pub open spec fn bytes_of(v: MetaValue) -> Option<Seq<u8>> {
    match v {
        MetaValue::Text(s) => Some(vstd::utf8::encode_utf8(s@)),
        MetaValue::Array(elems) => array_bytes(elems@),
        MetaValue::Other => None,
    }
}

/// The bytes a metadata value holds, if it holds bytes.
pub fn value_to_bytes(value: &MetaValue) -> (r: Option<Vec<u8>>)
    ensures
        match r {
            Some(b) => bytes_of(*value) == Some(b@),
            None => bytes_of(*value) is None,
        },
{
    match value {
        MetaValue::Text(s) => {
            let bytes = s.as_str().as_bytes();
            let mut out: Vec<u8> = Vec::new();
            let mut i: usize = 0;
            while i < bytes.len()
                invariant
                    i <= bytes@.len(),
                    bytes@ == vstd::utf8::encode_utf8(s@),
                    out@ == bytes@.subrange(0, i as int),
                decreases bytes.len() - i,
            {
                out.push(bytes[i]);
                i += 1;
                assert(out@ =~= bytes@.subrange(0, i as int));
            }
            assert(bytes@.subrange(0, bytes@.len() as int) =~= bytes@);
            Some(out)
        },
        MetaValue::Array(elems) => {
            let mut out: Vec<u8> = Vec::new();
            let mut i: usize = 0;
            while i < elems.len()
                invariant
                    i <= elems@.len(),
                    bytes_of(*value) == array_bytes(elems@),
                    array_bytes(elems@.subrange(0, i as int)) == Some(out@),
                decreases elems.len() - i,
            {
                assert(elems@.subrange(0, i + 1).drop_last() =~= elems@.subrange(0, i as int));
                assert(elems@.subrange(0, i + 1).last() == elems@[i as int]);
                match elems[i] {
                    Some(b) => out.push(b),
                    None => {
                        assert(array_bytes(elems@.subrange(0, i + 1)) is None);
                        proof {
                            lemma_array_bytes_stays_none(elems@, (i + 1) as nat);
                        }
                        assert(elems@.subrange(0, elems@.len() as int) =~= elems@);
                        return None;
                    },
                }
                i += 1;
            }
            assert(elems@.subrange(0, elems@.len() as int) =~= elems@);
            Some(out)
        },
        MetaValue::Other => None,
    }
}

/// Once an element is not a byte, the array spells no bytes.
proof fn lemma_array_bytes_stays_none(elems: Seq<Option<u8>>, n: nat)
    requires
        n <= elems.len(),
        array_bytes(elems.subrange(0, n as int)) is None,
    ensures
        array_bytes(elems) is None,
    decreases elems.len() - n,
{
    if n < elems.len() {
        assert(elems.subrange(0, n + 1 as int).drop_last() =~= elems.subrange(0, n as int));
        lemma_array_bytes_stays_none(elems, (n + 1) as nat);
    } else {
        assert(elems.subrange(0, n as int) =~= elems);
    }
}

/// The serialized tokenizer: the bytes under `tokenizer.json` when they are
/// bytes, else those under `tokenizer.ggml.tokens`, else none.
pub open spec fn tokenizer_bytes(json: Option<MetaValue>, tokens: Option<MetaValue>) -> Option<Seq<u8>> {
    let first = match json {
        Some(v) => bytes_of(v),
        None => None,
    };
    match first {
        Some(b) => Some(b),
        None => match tokens {
            Some(v) => bytes_of(v),
            None => None,
        },
    }
}

/// Finds the serialized tokenizer among the values stored under
/// `tokenizer.json` and `tokenizer.ggml.tokens`.
pub fn find_tokenizer_bytes(json: Option<&MetaValue>, tokens: Option<&MetaValue>) -> (r: Option<Vec<u8>>)
    ensures
        match r {
            Some(b) => tokenizer_bytes(opt_value(json), opt_value(tokens)) == Some(b@),
            None => tokenizer_bytes(opt_value(json), opt_value(tokens)) is None,
        },
{
    match json {
        Some(v) => match value_to_bytes(v) {
            Some(b) => return Some(b),
            None => {},
        },
        None => {},
    }
    match tokens {
        Some(v) => value_to_bytes(v),
        None => None,
    }
}

/// The value behind an optional reference.
pub open spec fn opt_value(o: Option<&MetaValue>) -> Option<MetaValue> {
    match o {
        Some(v) => Some(*v),
        None => None,
    }
}

/// The end-of-sequence token: the id stored directly, else the id of the
/// token named in the metadata, else the first of the usual end tokens the
/// vocabulary knows, in the order `</s>`, `<|eot_id|>`, `<|endoftext|>`.
pub fn choose_eos_token(stored_id: Option<u32>, named_id: Option<u32>, known: &Vec<Option<u32>>) -> (r: Option<u32>)
    ensures
        stored_id is Some ==> r == stored_id,
        stored_id is None && named_id is Some ==> r == named_id,
        stored_id is None && named_id is None ==> match r {
            Some(id) => exists|i: int| 0 <= i < known@.len() && known@[i] == Some(id)
                && forall|k: int| 0 <= k < i ==> (#[trigger] known@[k]) is None,
            None => forall|k: int| 0 <= k < known@.len() ==> (#[trigger] known@[k]) is None,
        },
{
    match stored_id {
        Some(_) => return stored_id,
        None => {},
    }
    match named_id {
        Some(_) => return named_id,
        None => {},
    }
    let mut i: usize = 0;
    while i < known.len()
        invariant
            i <= known@.len(),
            stored_id is None,
            named_id is None,
            forall|k: int| 0 <= k < i ==> (#[trigger] known@[k]) is None,
        decreases known.len() - i,
    {
        match known[i] {
            Some(id) => return Some(id),
            None => {},
        }
        i += 1;
    }
    None
}

} // verus!
