//! The artifact codec: a compact binary encoding and a textual encoding
//! of the same schema.
//!
//! Both encodings share one token layer: the artifact is a sequence of
//! 64-bit tokens, which the binary form writes as little-endian octets
//! and the textual form as decimal numbers, one per line.  The decoders
//! accept exactly what the encoders emit: whenever decoding succeeds, the
//! input is the encoding of the decoded artifact, so re-saving a loaded
//! artifact reproduces it byte for byte.

use crate::bytecode::{
    AccessLevel, BytecodeProgram, Class, Field, Function, Instruction,
};
use crate::namemap::NameMap;
use crate::error::VmError;
use crate::value::Value;
use vstd::prelude::*;
use vstd::string::StrSliceExecFns;

verus! {

/// The token every artifact starts with.
pub const ARTIFACT_MAGIC: u64 = 0x4d4f4f4c;

/// Relies on `char::from_u32`: `Some` exactly for Unicode scalar values
/// (below the surrogate range or between it and the maximum code point),
/// and the returned character converts back to the same number.
#[verifier::external_body]
fn char_from_u32(u: u32) -> (r: Option<char>)
    ensures
        r is Some <==> (u < 0xD800 || (0xE000 <= u && u <= 0x10FFFF)),
        r matches Some(c) ==> c as u32 == u,
{
    char::from_u32(u)
}

/// The sign token of an integer: one for negative values.
pub open spec fn i64_sign(x: i64) -> u64 {
    if x < 0 {
        1u64
    } else {
        0u64
    }
}

/// The magnitude token of an integer.
pub open spec fn i64_mag(x: i64) -> u64 {
    if x >= 0 {
        x as u64
    } else {
        (-(x as int)) as u64
    }
}

/// The token encoding of a string: its length, then one token per
/// character.
pub open spec fn enc_str(s: Seq<char>) -> Seq<u64> {
    seq![s.len() as u64].add(Seq::new(s.len(), |i: int| (s[i] as u32) as u64))
}

/// The token encoding of a value.
pub open spec fn enc_value(v: Value) -> Seq<u64> {
    match v {
        Value::Int(x) => seq![0u64, i64_sign(x), i64_mag(x)],
        Value::Float(bits) => seq![1u64, bits],
        Value::Bool(b) => seq![2u64, if b { 1u64 } else { 0u64 }],
        Value::Str(s) => seq![3u64].add(enc_str(s@)),
        Value::Null => seq![4u64],
        Value::Object(id) => seq![5u64, id],
        Value::Function(id) => seq![6u64, id],
        Value::Array(id) => seq![7u64, id],
    }
}

/// The token encoding of an instruction: a tag, then its payload.
pub open spec fn enc_instr(i: Instruction) -> Seq<u64> {
    match i {
        Instruction::PUSH(v) => seq![0u64].add(enc_value(v)),
        Instruction::POP => seq![1u64],
        Instruction::DUP => seq![2u64],
        Instruction::SWAP => seq![3u64],
        Instruction::LOAD_VAR(s) => seq![4u64].add(enc_str(s@)),
        Instruction::STORE_VAR(s) => seq![5u64].add(enc_str(s@)),
        Instruction::LOAD_CONST(k) => seq![6u64, k as u64],
        Instruction::ADD => seq![7u64],
        Instruction::SUB => seq![8u64],
        Instruction::MUL => seq![9u64],
        Instruction::DIV => seq![10u64],
        Instruction::MOD => seq![11u64],
        Instruction::NEG => seq![12u64],
        Instruction::EQ => seq![13u64],
        Instruction::NE => seq![14u64],
        Instruction::LT => seq![15u64],
        Instruction::LE => seq![16u64],
        Instruction::GT => seq![17u64],
        Instruction::GE => seq![18u64],
        Instruction::AND => seq![19u64],
        Instruction::OR => seq![20u64],
        Instruction::NOT => seq![21u64],
        Instruction::JMP(k) => seq![22u64, k as u64],
        Instruction::JMP_IF(k) => seq![23u64, k as u64],
        Instruction::JMP_IF_FALSE(k) => seq![24u64, k as u64],
        Instruction::CALL(s) => seq![25u64].add(enc_str(s@)),
        Instruction::CALL_NATIVE(s) => seq![26u64].add(enc_str(s@)),
        Instruction::RETURN => seq![27u64],
        Instruction::NEW(s) => seq![28u64].add(enc_str(s@)),
        Instruction::GET_FIELD(s) => seq![29u64].add(enc_str(s@)),
        Instruction::SET_FIELD(s) => seq![30u64].add(enc_str(s@)),
        Instruction::GET_METHOD(s) => seq![31u64].add(enc_str(s@)),
        Instruction::NEW_ARRAY(k) => seq![32u64, k as u64],
        Instruction::GET_ELEMENT => seq![33u64],
        Instruction::SET_ELEMENT => seq![34u64],
        Instruction::GET_LENGTH => seq![35u64],
        Instruction::CAST(s) => seq![36u64].add(enc_str(s@)),
        Instruction::IS_NULL => seq![37u64],
        Instruction::IS_TYPE(s) => seq![38u64].add(enc_str(s@)),
        Instruction::ALLOC(k) => seq![39u64, k as u64],
        Instruction::FREE => seq![40u64],
        Instruction::BREAKPOINT => seq![41u64],
        Instruction::TRACE => seq![42u64],
        Instruction::HALT => seq![43u64],
        Instruction::NOOP => seq![44u64],
    }
}

/// Appends the token encoding of a string.
fn write_str(out: &mut Vec<u64>, s: &str)
    ensures
        final(out)@ == old(out)@ + enc_str(s@),
{
    let n = s.unicode_len();
    out.push(n as u64);
    let mut i: usize = 0;
    while i < n
        invariant
            n == s@.len(),
            i <= n,
            out@ == old(out)@ + seq![s@.len() as u64] + Seq::new(
                i as nat,
                |j: int| (s@[j] as u32) as u64,
            ),
        decreases n - i,
    {
        let c = s.get_char(i);
        out.push((c as u32) as u64);
        proof {
            assert(out@ =~= old(out)@ + seq![s@.len() as u64] + Seq::new(
                (i + 1) as nat,
                |j: int| (s@[j] as u32) as u64,
            ));
        }
        i = i + 1;
    }
    proof {
        assert(out@ =~= old(out)@ + enc_str(s@));
    }
}

/// Appends the token encoding of a value.
fn write_value(out: &mut Vec<u64>, v: &Value)
    ensures
        final(out)@ == old(out)@ + enc_value(*v),
{
    match v {
        Value::Int(x) => {
            out.push(0);
            if *x < 0 {
                out.push(1);
                let mag: u64 = if *x == i64::MIN {
                    9223372036854775808u64
                } else {
                    (-*x) as u64
                };
                out.push(mag);
            } else {
                out.push(0);
                out.push(*x as u64);
            }
            proof {
                assert(out@ =~= old(out)@ + enc_value(*v));
            }
        },
        Value::Float(bits) => {
            out.push(1);
            out.push(*bits);
            proof {
                assert(out@ =~= old(out)@ + enc_value(*v));
            }
        },
        Value::Bool(b) => {
            out.push(2);
            out.push(if *b {
                1
            } else {
                0
            });
            proof {
                assert(out@ =~= old(out)@ + enc_value(*v));
            }
        },
        Value::Str(s) => {
            out.push(3);
            write_str(out, s.as_str());
            proof {
                assert(out@ =~= old(out)@ + enc_value(*v));
            }
        },
        Value::Null => {
            out.push(4);
            proof {
                assert(out@ =~= old(out)@ + enc_value(*v));
            }
        },
        Value::Object(id) => {
            out.push(5);
            out.push(*id);
            proof {
                assert(out@ =~= old(out)@ + enc_value(*v));
            }
        },
        Value::Function(id) => {
            out.push(6);
            out.push(*id);
            proof {
                assert(out@ =~= old(out)@ + enc_value(*v));
            }
        },
        Value::Array(id) => {
            out.push(7);
            out.push(*id);
            proof {
                assert(out@ =~= old(out)@ + enc_value(*v));
            }
        },
    }
}

/// Appends the token encoding of an instruction.
fn write_instr(out: &mut Vec<u64>, i: &Instruction)
    ensures
        final(out)@ == old(out)@ + enc_instr(*i),
{
    match i {
        Instruction::PUSH(v) => {
            out.push(0);
            write_value(out, v);
        },
        Instruction::POP => out.push(1),
        Instruction::DUP => out.push(2),
        Instruction::SWAP => out.push(3),
        Instruction::LOAD_VAR(s) => {
            out.push(4);
            write_str(out, s.as_str());
        },
        Instruction::STORE_VAR(s) => {
            out.push(5);
            write_str(out, s.as_str());
        },
        Instruction::LOAD_CONST(k) => {
            out.push(6);
            out.push(*k as u64);
        },
        Instruction::ADD => out.push(7),
        Instruction::SUB => out.push(8),
        Instruction::MUL => out.push(9),
        Instruction::DIV => out.push(10),
        Instruction::MOD => out.push(11),
        Instruction::NEG => out.push(12),
        Instruction::EQ => out.push(13),
        Instruction::NE => out.push(14),
        Instruction::LT => out.push(15),
        Instruction::LE => out.push(16),
        Instruction::GT => out.push(17),
        Instruction::GE => out.push(18),
        Instruction::AND => out.push(19),
        Instruction::OR => out.push(20),
        Instruction::NOT => out.push(21),
        Instruction::JMP(k) => {
            out.push(22);
            out.push(*k as u64);
        },
        Instruction::JMP_IF(k) => {
            out.push(23);
            out.push(*k as u64);
        },
        Instruction::JMP_IF_FALSE(k) => {
            out.push(24);
            out.push(*k as u64);
        },
        Instruction::CALL(s) => {
            out.push(25);
            write_str(out, s.as_str());
        },
        Instruction::CALL_NATIVE(s) => {
            out.push(26);
            write_str(out, s.as_str());
        },
        Instruction::RETURN => out.push(27),
        Instruction::NEW(s) => {
            out.push(28);
            write_str(out, s.as_str());
        },
        Instruction::GET_FIELD(s) => {
            out.push(29);
            write_str(out, s.as_str());
        },
        Instruction::SET_FIELD(s) => {
            out.push(30);
            write_str(out, s.as_str());
        },
        Instruction::GET_METHOD(s) => {
            out.push(31);
            write_str(out, s.as_str());
        },
        Instruction::NEW_ARRAY(k) => {
            out.push(32);
            out.push(*k as u64);
        },
        Instruction::GET_ELEMENT => out.push(33),
        Instruction::SET_ELEMENT => out.push(34),
        Instruction::GET_LENGTH => out.push(35),
        Instruction::CAST(s) => {
            out.push(36);
            write_str(out, s.as_str());
        },
        Instruction::IS_NULL => out.push(37),
        Instruction::IS_TYPE(s) => {
            out.push(38);
            write_str(out, s.as_str());
        },
        Instruction::ALLOC(k) => {
            out.push(39);
            out.push(*k as u64);
        },
        Instruction::FREE => out.push(40),
        Instruction::BREAKPOINT => out.push(41),
        Instruction::TRACE => out.push(42),
        Instruction::HALT => out.push(43),
        Instruction::NOOP => out.push(44),
    }
    proof {
        assert(out@ =~= old(out)@ + enc_instr(*i));
    }
}

/// Whether the tokens from a position onward begin with the encoding of
/// the given character sequence (of machine-representable length).
#[verifier::opaque]
pub open spec fn str_decodable(tokens: Seq<u64>, pos: int, s0: Seq<char>) -> bool {
    s0.len() <= usize::MAX && pos + enc_str(s0).len() <= tokens.len() && tokens.subrange(
        pos,
        pos + enc_str(s0).len(),
    ) == enc_str(s0)
}

/// Reads a string; on success the consumed tokens are exactly the
/// returned string's encoding, and the encoding of any string is
/// accepted.
fn read_str(tokens: &Vec<u64>, pos: usize) -> (r: Option<(String, usize)>)
    ensures
        r matches Some((s, end)) ==> pos <= end <= tokens@.len() && tokens@.subrange(
            pos as int,
            end as int,
        ) == enc_str(s@),
        forall|s0: Seq<char>|
            #[trigger] str_decodable(tokens@, pos as int, s0) ==> (r matches Some((s, end))
                && end == pos + enc_str(s0).len()),
{
    let ghost has = exists|s0: Seq<char>| #[trigger] str_decodable(tokens@, pos as int, s0);
    let ghost s0: Seq<char> = if has {
        choose|s0: Seq<char>| #[trigger] str_decodable(tokens@, pos as int, s0)
    } else {
        Seq::empty()
    };
    proof {
        reveal(str_decodable);
        if has {
            assert(enc_str(s0).len() == s0.len() + 1);
            assert(pos + s0.len() + 1 <= tokens@.len());
            assert(tokens@.subrange(pos as int, pos + enc_str(s0).len())[0] == enc_str(s0)[0]);
            assert(tokens@[pos as int] == s0.len() as u64);
        }
    }
    if pos >= tokens.len() {
        proof {
            if has {
                assert(false);
            }
        }
        return None;
    }
    let n_token = tokens[pos];
    if n_token > usize::MAX as u64 {
        proof {
            if has {
                assert(false);
            }
        }
        return None;
    }
    let n = n_token as usize;
    if n > tokens.len() - pos - 1 {
        proof {
            if has {
                assert(n == s0.len());
                assert(enc_str(s0).len() == s0.len() + 1);
                assert(false);
            }
        }
        return None;
    }
    let mut s = String::new();
    let mut i: usize = 0;
    while i < n
        invariant
            tokens@.len() <= usize::MAX,
            pos + 1 + n <= tokens@.len(),
            i <= n,
            s@.len() == i,
            forall|j: int|
                0 <= j < i ==> ((#[trigger] s@[j]) as u32) as u64 == tokens@[pos + 1 + j],
            has == (exists|s0x: Seq<char>| #[trigger] str_decodable(tokens@, pos as int, s0x)),
            has ==> s0.len() == n && str_decodable(tokens@, pos as int, s0),
        decreases n - i,
    {
        let slot = pos + 1 + i;
        let t = tokens[slot];
        proof {
            reveal(str_decodable);
            if has {
                assert(enc_str(s0).len() == n + 1);
                assert(tokens@.subrange(pos as int, pos + enc_str(s0).len())[1 + i] == enc_str(
                    s0,
                )[1 + i]);
                assert(t == (s0[i as int] as u32) as u64);
                vstd::utf8::char_is_scalar(s0[i as int]);
            }
        }
        if t > 0x10FFFFu64 {
            proof {
                if has {
                    assert(false);
                }
            }
            return None;
        }
        let c = match char_from_u32(t as u32) {
            Some(c) => c,
            None => {
                proof {
                    if has {
                        assert(false);
                    }
                }
                return None;
            },
        };
        crate::text::push_char(&mut s, c);
        proof {
            assert((c as u32) as u64 == t);
        }
        i = i + 1;
    }
    let end = pos + 1 + n;
    proof {
        assert(s@.len() == n_token as usize);
        assert(tokens@.subrange(pos as int, end as int) =~= enc_str(s@));
        assert forall|s0x: Seq<char>| #[trigger] str_decodable(tokens@, pos as int, s0x)
            implies end == pos + enc_str(s0x).len() by {
            reveal(str_decodable);
            assert(tokens@.subrange(pos as int, pos + enc_str(s0x).len())[0] == enc_str(
                s0x,
            )[0]);
            assert(s0x.len() as u64 == tokens@[pos as int]);
        }
    }
    Some((s, end))
}

/// Whether a value's strings are machine-representable.
pub open spec fn value_fits(v: Value) -> bool {
    match v {
        Value::Str(s) => s@.len() <= usize::MAX,
        _ => true,
    }
}

/// Whether the tokens from a position onward begin with the encoding of
/// the given value.
#[verifier::opaque]
pub open spec fn value_decodable(tokens: Seq<u64>, pos: int, v0: Value) -> bool {
    value_fits(v0) && pos + enc_value(v0).len() <= tokens.len() && tokens.subrange(
        pos,
        pos + enc_value(v0).len(),
    ) == enc_value(v0)
}

/// Reads a value; on success the consumed tokens are exactly the
/// returned value's encoding, and the encoding of any value (with a
/// machine-representable string) is accepted.
#[verifier::rlimit(100)]
fn read_value(tokens: &Vec<u64>, pos: usize) -> (r: Option<(Value, usize)>)
    ensures
        r matches Some((v, end)) ==> pos <= end <= tokens@.len() && tokens@.subrange(
            pos as int,
            end as int,
        ) == enc_value(v),
        forall|v0: Value|
            #[trigger] value_decodable(tokens@, pos as int, v0) ==> (r matches Some((v, end))
                && end == pos + enc_value(v0).len()),
{
    let ghost has = exists|v0: Value| #[trigger] value_decodable(tokens@, pos as int, v0);
    let ghost v0: Value = if has {
        choose|v0: Value| #[trigger] value_decodable(tokens@, pos as int, v0)
    } else {
        Value::Null
    };
    proof {
        reveal(value_decodable);
        if has {
            assert(pos + enc_value(v0).len() <= tokens@.len());
            assert(enc_value(v0).len() >= 1);
            assert(tokens@.subrange(pos as int, pos + enc_value(v0).len())[0] == enc_value(
                v0,
            )[0]);
            assert(tokens@[pos as int] == enc_value(v0)[0]);
            if enc_value(v0).len() >= 2 {
                assert(tokens@.subrange(pos as int, pos + enc_value(v0).len())[1] == enc_value(
                    v0,
                )[1]);
                assert(tokens@[pos + 1int] == enc_value(v0)[1]);
            }
            if enc_value(v0).len() >= 3 && (v0 is Int) {
                assert(tokens@.subrange(pos as int, pos + enc_value(v0).len())[2] == enc_value(
                    v0,
                )[2]);
                assert(tokens@[pos + 2int] == enc_value(v0)[2]);
            }
        }
    }
    if pos >= tokens.len() {
        proof {
            if has {
                assert(false);
            }
        }
        return None;
    }
    let tag = tokens[pos];
    if tag == 0 {
        proof {
            if has {
                assert(v0 is Int);
            }
        }
        if tokens.len() - pos < 3 {
            proof {
                if has {
                    assert(false);
                }
            }
            return None;
        }
        let sign = tokens[pos + 1];
        let mag = tokens[pos + 2];
        let x: i64 = if sign == 0 {
            if mag > 0x7fff_ffff_ffff_ffffu64 {
                proof {
                    if has {
                        assert(false);
                    }
                }
                return None;
            }
            mag as i64
        } else if sign == 1 {
            if mag == 0 || mag > 0x8000_0000_0000_0000u64 {
                proof {
                    if has {
                        assert(false);
                    }
                }
                return None;
            }
            if mag == 0x8000_0000_0000_0000u64 {
                i64::MIN
            } else {
                -(mag as i64)
            }
        } else {
            proof {
                if has {
                    assert(false);
                }
            }
            return None;
        };
        proof {
            assert(tokens@.subrange(pos as int, pos + 3int) =~= enc_value(Value::Int(x)));
            assert forall|v0x: Value| #[trigger] value_decodable(tokens@, pos as int, v0x)
                implies pos + 3 == pos + enc_value(v0x).len() by {
                reveal(value_decodable);
                assert(tokens@.subrange(pos as int, pos + enc_value(v0x).len())[0] == enc_value(
                    v0x,
                )[0]);
            }
        }
        Some((Value::Int(x), pos + 3))
    } else if tag == 1 || tag == 2 || tag == 5 || tag == 6 || tag == 7 {
        if tokens.len() - pos < 2 {
            proof {
                if has {
                    assert(false);
                }
            }
            return None;
        }
        let payload = tokens[pos + 1];
        let v = if tag == 1 {
            Value::Float(payload)
        } else if tag == 2 {
            if payload > 1 {
                proof {
                    if has {
                        assert(v0 is Bool);
                        assert(false);
                    }
                }
                return None;
            }
            Value::Bool(payload == 1)
        } else if tag == 5 {
            Value::Object(payload)
        } else if tag == 6 {
            Value::Function(payload)
        } else {
            Value::Array(payload)
        };
        proof {
            assert(tokens@.subrange(pos as int, pos + 2int) =~= enc_value(v));
            assert forall|v0x: Value| #[trigger] value_decodable(tokens@, pos as int, v0x)
                implies pos + 2 == pos + enc_value(v0x).len() by {
                reveal(value_decodable);
                assert(tokens@.subrange(pos as int, pos + enc_value(v0x).len())[0] == enc_value(
                    v0x,
                )[0]);
            }
        }
        Some((v, pos + 2))
    } else if tag == 3 {
        proof {
            if has {
                assert(v0 is Str);
                let sv = v0->Str_0@;
                assert(enc_value(v0) =~= seq![3u64] + enc_str(sv));
                assert forall|j: int|
                    0 <= j < enc_str(sv).len() implies tokens@[pos + 1 + j] == enc_str(sv)[j] by {
                    assert(tokens@.subrange(pos as int, pos + enc_value(v0).len())[1 + j]
                        == enc_value(v0)[1 + j]);
                }
                assert(tokens@.subrange(pos + 1int, pos + 1 + enc_str(sv).len()) =~= enc_str(
                    sv,
                ));
                assert(str_decodable(tokens@, pos + 1int, sv)) by {
                    reveal(str_decodable);
                }
            }
        }
        match read_str(tokens, pos + 1) {
            Some((s, end)) => {
                proof {
                    assert(tokens@.subrange(pos as int, end as int) =~= seq![3u64] + tokens@
                        .subrange(pos + 1int, end as int));
                    assert(tokens@.subrange(pos as int, end as int) =~= enc_value(
                        Value::Str(s),
                    ));
                    assert forall|v0x: Value| #[trigger] value_decodable(tokens@, pos as int, v0x)
                        implies end == pos + enc_value(v0x).len() by {
                        reveal(value_decodable);
                        assert(tokens@.subrange(pos as int, pos + enc_value(v0x).len())[0]
                            == enc_value(v0x)[0]);
                        assert(v0x is Str);
                        let svx = v0x->Str_0@;
                        assert(enc_value(v0x) =~= seq![3u64] + enc_str(svx));
                        assert forall|j: int|
                            0 <= j < enc_str(svx).len() implies tokens@[pos + 1 + j] == enc_str(
                            svx,
                        )[j] by {
                            assert(tokens@.subrange(pos as int, pos + enc_value(v0x).len())[1
                                + j] == enc_value(v0x)[1 + j]);
                        }
                        assert(tokens@.subrange(pos + 1int, pos + 1 + enc_str(svx).len())
                            =~= enc_str(svx));
                        assert(str_decodable(tokens@, pos + 1int, svx)) by {
                            reveal(str_decodable);
                        }
                        assert(end == pos + 1 + enc_str(svx).len());
                    }
                }
                Some((Value::Str(s), end))
            },
            None => {
                proof {
                    if has {
                        assert(false);
                    }
                }
                None
            },
        }
    } else if tag == 4 {
        proof {
            assert(tokens@.subrange(pos as int, pos + 1int) =~= enc_value(Value::Null));
            assert forall|v0x: Value| #[trigger] value_decodable(tokens@, pos as int, v0x)
                implies pos + 1 == pos + enc_value(v0x).len() by {
                reveal(value_decodable);
                assert(tokens@.subrange(pos as int, pos + enc_value(v0x).len())[0] == enc_value(
                    v0x,
                )[0]);
            }
        }
        Some((Value::Null, pos + 1))
    } else {
        proof {
            if has {
                assert(false);
            }
        }
        None
    }
}

/// Reads a `usize` payload token.
fn read_usize(tokens: &Vec<u64>, pos: usize) -> (r: Option<(usize, usize)>)
    ensures
        r matches Some((k, end)) ==> end == pos + 1 && end <= tokens@.len() && tokens@[pos as int]
            == k as u64,
        pos < tokens@.len() && tokens@[pos as int] <= usize::MAX ==> r is Some,
{
    if pos >= tokens.len() {
        return None;
    }
    let t = tokens[pos];
    if t > usize::MAX as u64 {
        return None;
    }
    Some((t as usize, pos + 1))
}

/// The string payload of an instruction, when it carries one.
pub open spec fn instr_payload_str(i: Instruction) -> Option<Seq<char>> {
    match i {
        Instruction::LOAD_VAR(s) => Some(s@),
        Instruction::STORE_VAR(s) => Some(s@),
        Instruction::CALL(s) => Some(s@),
        Instruction::CALL_NATIVE(s) => Some(s@),
        Instruction::NEW(s) => Some(s@),
        Instruction::GET_FIELD(s) => Some(s@),
        Instruction::SET_FIELD(s) => Some(s@),
        Instruction::GET_METHOD(s) => Some(s@),
        Instruction::CAST(s) => Some(s@),
        Instruction::IS_TYPE(s) => Some(s@),
        _ => None,
    }
}

/// Whether the tokens from a position onward begin with the encoding of
/// the given instruction.
#[verifier::opaque]
pub open spec fn instr_decodable(tokens: Seq<u64>, pos: int, i0: Instruction) -> bool {
    instr_fits(i0) && pos + enc_instr(i0).len() <= tokens.len() && tokens.subrange(
        pos,
        pos + enc_instr(i0).len(),
    ) == enc_instr(i0)
}

/// Reads an instruction; on success the consumed tokens are exactly the
/// returned instruction's encoding, and the encoding of any instruction
/// is accepted.
#[verifier::rlimit(100)]
#[verifier::spinoff_prover]
fn read_instr(tokens: &Vec<u64>, pos: usize) -> (r: Option<(Instruction, usize)>)
    ensures
        r matches Some((i, end)) ==> pos <= end <= tokens@.len() && tokens@.subrange(
            pos as int,
            end as int,
        ) == enc_instr(i),
        forall|i0: Instruction|
            #[trigger] instr_decodable(tokens@, pos as int, i0) ==> (r matches Some((i, end))
                && end == pos + enc_instr(i0).len()),
{
    let ghost has = exists|i0: Instruction| #[trigger] instr_decodable(tokens@, pos as int, i0);
    let ghost i0: Instruction = if has {
        choose|i0: Instruction| #[trigger] instr_decodable(tokens@, pos as int, i0)
    } else {
        Instruction::NOOP
    };
    proof {
        reveal(instr_decodable);
        if has {
            assert(tokens@.subrange(pos as int, pos + enc_instr(i0).len())[0] == enc_instr(
                i0,
            )[0]);
            assert(tokens@[pos as int] == enc_instr(i0)[0]);
        }
    }
    if pos >= tokens.len() {
        proof {
            if has {
                assert(false);
            }
        }
        return None;
    }
    let tag = tokens[pos];
    if tag == 0 {
        match read_value(tokens, pos + 1) {
            Some((v, end)) => {
                let i = Instruction::PUSH(v);
                proof {
                    assert(tokens@.subrange(pos as int, end as int) =~= enc_instr(i));
                    assert forall|ix: Instruction|
                        instr_decodable(tokens@, pos as int, ix) implies end == pos + enc_instr(
                        ix,
                    ).len() by {
                        reveal(instr_decodable);
                        assert(tokens@.subrange(pos as int, pos + enc_instr(ix).len())[0]
                            == enc_instr(ix)[0]);
                        assert(ix is PUSH);
                        let vx = ix->PUSH_0;
                        assert(enc_instr(ix) =~= seq![0u64] + enc_value(vx));
                        assert forall|j: int|
                            0 <= j < enc_value(vx).len() implies tokens@[pos + 1 + j]
                            == enc_value(vx)[j] by {
                            assert(tokens@.subrange(pos as int, pos + enc_instr(ix).len())[1 + j]
                                == enc_instr(ix)[1 + j]);
                        }
                        assert(tokens@.subrange(pos + 1int, pos + 1 + enc_value(vx).len())
                            =~= enc_value(vx));
                        assert(value_decodable(tokens@, pos + 1int, vx)) by {
                            reveal(value_decodable);
                        }
                        assert(end == pos + 1 + enc_value(vx).len());
                    }
                }
                Some((i, end))
            },
            None => {
                proof {
                    reveal(instr_decodable);
                    if has {
                        let vx = i0->PUSH_0;
                        assert(enc_instr(i0) =~= seq![0u64] + enc_value(vx));
                        assert forall|j: int|
                            0 <= j < enc_value(vx).len() implies tokens@[pos + 1 + j]
                            == enc_value(vx)[j] by {
                            assert(tokens@.subrange(pos as int, pos + enc_instr(i0).len())[1 + j]
                                == enc_instr(i0)[1 + j]);
                        }
                        assert(tokens@.subrange(pos + 1int, pos + 1 + enc_value(vx).len())
                            =~= enc_value(vx));
                        assert(value_decodable(tokens@, pos + 1int, vx)) by {
                            reveal(value_decodable);
                        }
                        assert(false);
                    }
                }
                None
            },
        }
    } else if tag == 4 || tag == 5 || tag == 25 || tag == 26 || tag == 28 || tag == 29 || tag == 30
        || tag == 31 || tag == 36 || tag == 38 {
        match read_str(tokens, pos + 1) {
            Some((s, end)) => {
                let i = if tag == 4 {
                    Instruction::LOAD_VAR(s)
                } else if tag == 5 {
                    Instruction::STORE_VAR(s)
                } else if tag == 25 {
                    Instruction::CALL(s)
                } else if tag == 26 {
                    Instruction::CALL_NATIVE(s)
                } else if tag == 28 {
                    Instruction::NEW(s)
                } else if tag == 29 {
                    Instruction::GET_FIELD(s)
                } else if tag == 30 {
                    Instruction::SET_FIELD(s)
                } else if tag == 31 {
                    Instruction::GET_METHOD(s)
                } else if tag == 36 {
                    Instruction::CAST(s)
                } else {
                    Instruction::IS_TYPE(s)
                };
                proof {
                    assert(tokens@.subrange(pos as int, end as int) =~= enc_instr(i));
                    assert forall|ix: Instruction|
                        instr_decodable(tokens@, pos as int, ix) implies end == pos + enc_instr(
                        ix,
                    ).len() by {
                        reveal(instr_decodable);
                        assert(tokens@.subrange(pos as int, pos + enc_instr(ix).len())[0]
                            == enc_instr(ix)[0]);
                        assert(instr_payload_str(ix) is Some);
                        let sx = instr_payload_str(ix)->0;
                        assert(enc_instr(ix) =~= seq![enc_instr(ix)[0]] + enc_str(sx));
                        assert forall|j: int|
                            0 <= j < enc_str(sx).len() implies tokens@[pos + 1 + j] == enc_str(
                            sx,
                        )[j] by {
                            assert(tokens@.subrange(pos as int, pos + enc_instr(ix).len())[1 + j]
                                == enc_instr(ix)[1 + j]);
                        }
                        assert(tokens@.subrange(pos + 1int, pos + 1 + enc_str(sx).len())
                            =~= enc_str(sx));
                        assert(str_decodable(tokens@, pos + 1int, sx)) by {
                            reveal(str_decodable);
                        }
                        assert(end == pos + 1 + enc_str(sx).len());
                    }
                }
                Some((i, end))
            },
            None => {
                proof {
                    reveal(instr_decodable);
                    if has {
                        let sx = instr_payload_str(i0)->0;
                        assert(enc_instr(i0) =~= seq![enc_instr(i0)[0]] + enc_str(sx));
                        assert forall|j: int|
                            0 <= j < enc_str(sx).len() implies tokens@[pos + 1 + j] == enc_str(
                            sx,
                        )[j] by {
                            assert(tokens@.subrange(pos as int, pos + enc_instr(i0).len())[1 + j]
                                == enc_instr(i0)[1 + j]);
                        }
                        assert(tokens@.subrange(pos + 1int, pos + 1 + enc_str(sx).len())
                            =~= enc_str(sx));
                        assert(str_decodable(tokens@, pos + 1int, sx)) by {
                            reveal(str_decodable);
                        }
                        assert(false);
                    }
                }
                None
            },
        }
    } else if tag == 6 || tag == 22 || tag == 23 || tag == 24 || tag == 32 || tag == 39 {
        match read_usize(tokens, pos + 1) {
            Some((k, end)) => {
                let i = if tag == 6 {
                    Instruction::LOAD_CONST(k)
                } else if tag == 22 {
                    Instruction::JMP(k)
                } else if tag == 23 {
                    Instruction::JMP_IF(k)
                } else if tag == 24 {
                    Instruction::JMP_IF_FALSE(k)
                } else if tag == 32 {
                    Instruction::NEW_ARRAY(k)
                } else {
                    Instruction::ALLOC(k)
                };
                proof {
                    assert(tokens@.subrange(pos as int, end as int) =~= enc_instr(i));
                    assert forall|ix: Instruction|
                        instr_decodable(tokens@, pos as int, ix) implies end == pos + enc_instr(
                        ix,
                    ).len() by {
                        reveal(instr_decodable);
                        assert(tokens@.subrange(pos as int, pos + enc_instr(ix).len())[0]
                            == enc_instr(ix)[0]);
                        assert(enc_instr(ix).len() == 2);
                    }
                }
                Some((i, end))
            },
            None => {
                proof {
                    reveal(instr_decodable);
                    if has {
                        assert(enc_instr(i0).len() == 2);
                        assert(tokens@.subrange(pos as int, pos + enc_instr(i0).len())[1]
                            == enc_instr(i0)[1]);
                        assert(tokens@[pos + 1int] == enc_instr(i0)[1]);
                        assert(false);
                    }
                }
                None
            },
        }
    } else {
        let i = if tag == 1 {
            Instruction::POP
        } else if tag == 2 {
            Instruction::DUP
        } else if tag == 3 {
            Instruction::SWAP
        } else if tag == 7 {
            Instruction::ADD
        } else if tag == 8 {
            Instruction::SUB
        } else if tag == 9 {
            Instruction::MUL
        } else if tag == 10 {
            Instruction::DIV
        } else if tag == 11 {
            Instruction::MOD
        } else if tag == 12 {
            Instruction::NEG
        } else if tag == 13 {
            Instruction::EQ
        } else if tag == 14 {
            Instruction::NE
        } else if tag == 15 {
            Instruction::LT
        } else if tag == 16 {
            Instruction::LE
        } else if tag == 17 {
            Instruction::GT
        } else if tag == 18 {
            Instruction::GE
        } else if tag == 19 {
            Instruction::AND
        } else if tag == 20 {
            Instruction::OR
        } else if tag == 21 {
            Instruction::NOT
        } else if tag == 27 {
            Instruction::RETURN
        } else if tag == 33 {
            Instruction::GET_ELEMENT
        } else if tag == 34 {
            Instruction::SET_ELEMENT
        } else if tag == 35 {
            Instruction::GET_LENGTH
        } else if tag == 37 {
            Instruction::IS_NULL
        } else if tag == 40 {
            Instruction::FREE
        } else if tag == 41 {
            Instruction::BREAKPOINT
        } else if tag == 42 {
            Instruction::TRACE
        } else if tag == 43 {
            Instruction::HALT
        } else if tag == 44 {
            Instruction::NOOP
        } else {
            proof {
                if has {
                    assert(false);
                }
            }
            return None;
        };
        proof {
            assert(tokens@.subrange(pos as int, pos + 1int) =~= enc_instr(i));
            assert forall|ix: Instruction|
                instr_decodable(tokens@, pos as int, ix) implies pos + 1 == pos + enc_instr(
                ix,
            ).len() by {
                reveal(instr_decodable);
                assert(tokens@.subrange(pos as int, pos + enc_instr(ix).len())[0] == enc_instr(
                    ix,
                )[0]);
            }
        }
        Some((i, pos + 1))
    }
}

/// The concatenation of a per-element encoding over a sequence.
pub open spec fn concat_map<T>(s: Seq<T>, f: spec_fn(T) -> Seq<u64>) -> Seq<u64>
    decreases s.len(),
{
    if s.len() == 0 {
        Seq::empty()
    } else {
        concat_map(s.drop_last(), f) + f(s.last())
    }
}

/// `concat_map` distributes over concatenation.
proof fn lemma_concat_map_cat<T>(a: Seq<T>, b: Seq<T>, f: spec_fn(T) -> Seq<u64>)
    ensures
        concat_map(a + b, f) == concat_map(a, f) + concat_map(b, f),
    decreases b.len(),
{
    if b.len() == 0 {
        assert(a + b =~= a);
        assert(concat_map(a, f) + concat_map(b, f) =~= concat_map(a, f));
    } else {
        lemma_concat_map_cat(a, b.drop_last(), f);
        assert((a + b).drop_last() =~= a + b.drop_last());
        assert((a + b).last() == b.last());
        assert(concat_map(a, f) + concat_map(b.drop_last(), f) + f(b.last()) =~= concat_map(
            a,
            f,
        ) + concat_map(b, f));
    }
}

/// A non-empty sequence's concatenated encoding starts with its first
/// element's encoding.
proof fn lemma_concat_map_first<T>(s: Seq<T>, f: spec_fn(T) -> Seq<u64>)
    requires
        s.len() > 0,
    ensures
        concat_map(s, f) == f(s[0]) + concat_map(s.drop_first(), f),
{
    let head = seq![s[0]];
    assert(s =~= head + s.drop_first());
    lemma_concat_map_cat(head, s.drop_first(), f);
    assert(head.drop_last() =~= Seq::<T>::empty());
    assert(concat_map(Seq::<T>::empty(), f) =~= Seq::<u64>::empty());
    assert(head.last() == s[0]);
    assert(concat_map(head, f) == concat_map(head.drop_last(), f) + f(head.last()));
    assert(concat_map(head, f) =~= f(s[0]));
    assert(f(s[0]) + concat_map(s.drop_first(), f) =~= concat_map(head, f) + concat_map(
        s.drop_first(),
        f,
    ));
}

/// A concatenated encoding whose elements each take at least one token
/// is at least as long as the sequence.
proof fn lemma_concat_map_min_len<T>(s: Seq<T>, f: spec_fn(T) -> Seq<u64>)
    requires
        forall|i: int| 0 <= i < s.len() ==> (#[trigger] f(s[i])).len() >= 1,
    ensures
        concat_map(s, f).len() >= s.len(),
    decreases s.len(),
{
    if s.len() > 0 {
        assert(f(s.last()).len() >= 1);
        assert forall|i: int| 0 <= i < s.drop_last().len() implies (#[trigger] f(
            s.drop_last()[i],
        )).len() >= 1 by {
            assert(s.drop_last()[i] == s[i]);
        }
        lemma_concat_map_min_len(s.drop_last(), f);
    }
}

/// A window of tokens holding a two-part encoding splits into the two
/// parts' windows.
proof fn lemma_window_split(tokens: Seq<u64>, off: int, a: Seq<u64>, b: Seq<u64>)
    requires
        0 <= off,
        off + a.len() + b.len() <= tokens.len(),
        tokens.subrange(off, off + a.len() + b.len()) == a + b,
    ensures
        tokens.subrange(off, off + a.len()) == a,
        tokens.subrange(off + a.len(), off + a.len() + b.len()) == b,
{
    assert forall|j: int| 0 <= j < a.len() implies tokens[off + j] == a[j] by {
        assert(tokens.subrange(off, off + a.len() + b.len())[j] == (a + b)[j]);
        assert((a + b)[j] == a[j]);
        assert(tokens.subrange(off, off + a.len() + b.len())[j] == tokens[off + j]);
    }
    assert(tokens.subrange(off, off + a.len()) =~= a);
    assert forall|j: int| 0 <= j < b.len() implies tokens[off + a.len() + j] == b[j] by {
        assert(tokens.subrange(off, off + a.len() + b.len())[a.len() + j] == (a + b)[a.len()
            + j]);
        assert((a + b)[a.len() + j] == b[j]);
        assert(tokens.subrange(off, off + a.len() + b.len())[a.len() + j] == tokens[off + a.len()
            + j]);
    }
    assert(tokens.subrange(off + a.len(), off + a.len() + b.len()) =~= b);
}

/// Where element `i`'s encoding sits inside a list's concatenated
/// encoding: right after the encodings of the elements before it.
proof fn lemma_list_window<T>(tokens: Seq<u64>, pos: int, s: Seq<T>, f: spec_fn(T) -> Seq<u64>, i: int)
    requires
        0 <= i < s.len(),
        0 <= pos,
        pos + concat_map(s, f).len() <= tokens.len(),
        tokens.subrange(pos, pos + concat_map(s, f).len()) == concat_map(s, f),
    ensures
        ({
            let off = pos + concat_map(s.take(i), f).len();
            &&& concat_map(s.take(i), f).len() + f(s[i]).len() <= concat_map(s, f).len()
            &&& off + f(s[i]).len() <= tokens.len()
            &&& tokens.subrange(off, off + f(s[i]).len()) == f(s[i])
            &&& concat_map(s.take(i + 1), f) == concat_map(s.take(i), f) + f(s[i])
        }),
{
    assert(s.take(i) + s.skip(i) =~= s);
    lemma_concat_map_cat(s.take(i), s.skip(i), f);
    lemma_concat_map_first(s.skip(i), f);
    assert(s.skip(i)[0] == s[i]);
    let pre = concat_map(s.take(i), f);
    let mid = f(s[i]);
    let rest = concat_map(s.skip(i).drop_first(), f);
    assert(concat_map(s, f) == pre + (mid + rest));
    assert(pre + (mid + rest) =~= pre + mid + rest);
    lemma_window_split(tokens, pos, pre, mid + rest);
    lemma_window_split(tokens, pos + pre.len(), mid, rest);
    assert(s.take(i + 1).drop_last() =~= s.take(i));
    assert(s.take(i + 1).last() == s[i]);
}

/// The entry encoding of a field table.
pub open spec fn entry_enc_field(e: (String, Field)) -> Seq<u64> {
    enc_str(e.0@) + enc_field(e.1)
}

/// The entry encoding of a function table.
pub open spec fn entry_enc_fn(e: (String, Function)) -> Seq<u64> {
    enc_str(e.0@) + enc_fn(e.1)
}

/// The entry encoding of a class table.
pub open spec fn entry_enc_class(e: (String, Class)) -> Seq<u64> {
    enc_str(e.0@) + enc_class(e.1)
}

/// The entry encoding of a globals table.
pub open spec fn entry_enc_value(e: (String, Value)) -> Seq<u64> {
    enc_str(e.0@) + enc_value(e.1)
}

/// The token encoding of an instruction sequence (without a length).
pub open spec fn enc_instr_list(s: Seq<Instruction>) -> Seq<u64> {
    concat_map(s, |i: Instruction| enc_instr(i))
}

/// The token encoding of a value sequence (without a length).
pub open spec fn enc_value_list(s: Seq<Value>) -> Seq<u64> {
    concat_map(s, |v: Value| enc_value(v))
}

/// The token encoding of a name sequence (without a length).
pub open spec fn enc_name_list(s: Seq<String>) -> Seq<u64> {
    concat_map(s, |n: String| enc_str(n@))
}

/// The token encoding of an optional string.
pub open spec fn enc_opt_str(o: Option<String>) -> Seq<u64> {
    match o {
        None => seq![0u64],
        Some(s) => seq![1u64] + enc_str(s@),
    }
}

/// The token encoding of an access level.
pub open spec fn enc_access(a: AccessLevel) -> Seq<u64> {
    match a {
        AccessLevel::Public => seq![0u64],
        AccessLevel::Private => seq![1u64],
        AccessLevel::Protected => seq![2u64],
    }
}

/// The token encoding of a function.
pub open spec fn enc_fn(f: Function) -> Seq<u64> {
    enc_str(f.name@) + seq![f.parameters@.len() as u64] + enc_name_list(f.parameters@) + seq![
        f.locals@.len() as u64,
    ] + enc_name_list(f.locals@) + seq![f.instructions@.len() as u64] + enc_instr_list(
        f.instructions@,
    ) + enc_opt_str(f.return_type) + enc_access(f.access_level)
}

/// The token encoding of an optional value.
pub open spec fn enc_opt_value(o: Option<Value>) -> Seq<u64> {
    match o {
        None => seq![0u64],
        Some(v) => seq![1u64] + enc_value(v),
    }
}

/// The token encoding of an optional function.
pub open spec fn enc_opt_fn(o: Option<Function>) -> Seq<u64> {
    match o {
        None => seq![0u64],
        Some(f) => seq![1u64] + enc_fn(f),
    }
}

/// The token encoding of a field descriptor.
pub open spec fn enc_field(fd: Field) -> Seq<u64> {
    enc_str(fd.name@) + enc_str(fd.field_type@) + enc_access(fd.access_level) + seq![
        if fd.is_final {
            1u64
        } else {
            0u64
        },
    ] + enc_opt_value(fd.default_value)
}

/// The token encoding of a field table's entries.
pub open spec fn enc_field_entries(entries: Seq<(String, Field)>) -> Seq<u64> {
    concat_map(entries, |e: (String, Field)| entry_enc_field(e))
}

/// The token encoding of a function table's entries.
pub open spec fn enc_fn_entries(entries: Seq<(String, Function)>) -> Seq<u64> {
    concat_map(entries, |e: (String, Function)| entry_enc_fn(e))
}

/// The token encoding of a class.
pub open spec fn enc_class(c: Class) -> Seq<u64> {
    enc_str(c.name@) + enc_opt_str(c.parent) + seq![c.fields.entries_seq().len() as u64]
        + enc_field_entries(c.fields.entries_seq()) + seq![c.methods.entries_seq().len() as u64]
        + enc_fn_entries(c.methods.entries_seq()) + enc_opt_fn(c.constructor) + enc_access(
        c.access_level,
    )
}

/// The token encoding of a class table's entries.
pub open spec fn enc_class_entries(entries: Seq<(String, Class)>) -> Seq<u64> {
    concat_map(entries, |e: (String, Class)| entry_enc_class(e))
}

/// The token encoding of a globals table's entries.
pub open spec fn enc_value_entries(entries: Seq<(String, Value)>) -> Seq<u64> {
    concat_map(entries, |e: (String, Value)| entry_enc_value(e))
}

/// The token encoding of a whole program artifact.
pub open spec fn enc_program(p: BytecodeProgram) -> Seq<u64> {
    seq![ARTIFACT_MAGIC, p.version as u64] + enc_str(p.name@) + seq![p.constants@.len() as u64]
        + enc_value_list(p.constants@) + seq![p.functions.entries_seq().len() as u64]
        + enc_fn_entries(p.functions.entries_seq()) + seq![p.classes.entries_seq().len() as u64]
        + enc_class_entries(p.classes.entries_seq()) + enc_str(p.main_function@) + seq![
        p.globals.entries_seq().len() as u64,
    ] + enc_value_entries(p.globals.entries_seq())
}

/// Appends an optional string.
fn write_opt_str(out: &mut Vec<u64>, o: &Option<String>)
    ensures
        final(out)@ == old(out)@ + enc_opt_str(*o),
{
    match o {
        None => out.push(0),
        Some(s) => {
            out.push(1);
            write_str(out, s.as_str());
        },
    }
    proof {
        assert(out@ =~= old(out)@ + enc_opt_str(*o));
    }
}

/// Appends an access level.
fn write_access(out: &mut Vec<u64>, a: &AccessLevel)
    ensures
        final(out)@ == old(out)@ + enc_access(*a),
{
    match a {
        AccessLevel::Public => out.push(0),
        AccessLevel::Private => out.push(1),
        AccessLevel::Protected => out.push(2),
    }
    proof {
        assert(out@ =~= old(out)@ + enc_access(*a));
    }
}

/// Appends a name list with its length.
fn write_names(out: &mut Vec<u64>, names: &Vec<String>)
    ensures
        final(out)@ == old(out)@ + seq![names@.len() as u64] + enc_name_list(names@),
{
    out.push(names.len() as u64);
    let n = names.len();
    let mut i: usize = 0;
    while i < n
        invariant
            n == names@.len(),
            i <= n,
            out@ == old(out)@ + seq![names@.len() as u64] + enc_name_list(
                names@.take(i as int),
            ),
        decreases n - i,
    {
        write_str(out, names[i].as_str());
        proof {
            assert(names@.take(i + 1int).drop_last() =~= names@.take(i as int));
            assert(names@.take(i + 1int).last() == names@[i as int]);
        }
        i = i + 1;
    }
    proof {
        assert(names@.take(n as int) =~= names@);
    }
}

/// Appends an instruction list with its length.
fn write_instrs(out: &mut Vec<u64>, instrs: &Vec<Instruction>)
    ensures
        final(out)@ == old(out)@ + seq![instrs@.len() as u64] + enc_instr_list(instrs@),
{
    out.push(instrs.len() as u64);
    let n = instrs.len();
    let mut i: usize = 0;
    while i < n
        invariant
            n == instrs@.len(),
            i <= n,
            out@ == old(out)@ + seq![instrs@.len() as u64] + enc_instr_list(
                instrs@.take(i as int),
            ),
        decreases n - i,
    {
        write_instr(out, &instrs[i]);
        proof {
            assert(instrs@.take(i + 1int).drop_last() =~= instrs@.take(i as int));
            assert(instrs@.take(i + 1int).last() == instrs@[i as int]);
        }
        i = i + 1;
    }
    proof {
        assert(instrs@.take(n as int) =~= instrs@);
    }
}

/// Appends a function.
fn write_fn(out: &mut Vec<u64>, f: &Function)
    ensures
        final(out)@ == old(out)@ + enc_fn(*f),
{
    write_str(out, f.name.as_str());
    write_names(out, &f.parameters);
    write_names(out, &f.locals);
    write_instrs(out, &f.instructions);
    write_opt_str(out, &f.return_type);
    write_access(out, &f.access_level);
    proof {
        assert(out@ =~= old(out)@ + enc_fn(*f));
    }
}

/// Appends a field descriptor.
fn write_field(out: &mut Vec<u64>, fd: &Field)
    ensures
        final(out)@ == old(out)@ + enc_field(*fd),
{
    write_str(out, fd.name.as_str());
    write_str(out, fd.field_type.as_str());
    write_access(out, &fd.access_level);
    out.push(
        if fd.is_final {
            1
        } else {
            0
        },
    );
    match &fd.default_value {
        None => out.push(0),
        Some(v) => {
            out.push(1);
            write_value(out, v);
        },
    }
    proof {
        assert(out@ =~= old(out)@ + enc_field(*fd));
    }
}

/// Appends a class.
#[verifier::rlimit(100)]
fn write_class(out: &mut Vec<u64>, c: &Class)
    ensures
        final(out)@ == old(out)@ + enc_class(*c),
{
    write_str(out, c.name.as_str());
    write_opt_str(out, &c.parent);
    out.push(c.fields.len() as u64);
    let fn_count = c.fields.len();
    let mut i: usize = 0;
    while i < fn_count
        invariant
            fn_count == c.fields.entries_seq().len(),
            i <= fn_count,
            out@ == old(out)@ + enc_str(c.name@) + enc_opt_str(c.parent) + seq![
                c.fields.entries_seq().len() as u64,
            ] + enc_field_entries(c.fields.entries_seq().take(i as int)),
        decreases fn_count - i,
    {
        write_str(out, c.fields.key_at(i).as_str());
        write_field(out, c.fields.value_at(i));
        proof {
            assert(c.fields.entries_seq().take(i + 1int).drop_last() =~= c.fields.entries_seq()
                .take(i as int));
            assert(c.fields.entries_seq().take(i + 1int).last() == c.fields.entries_seq()[
                i as int]);
        }
        i = i + 1;
    }
    proof {
        assert(c.fields.entries_seq().take(fn_count as int) =~= c.fields.entries_seq());
    }
    out.push(c.methods.len() as u64);
    let m_count = c.methods.len();
    let mut k: usize = 0;
    while k < m_count
        invariant
            m_count == c.methods.entries_seq().len(),
            k <= m_count,
            out@ == old(out)@ + enc_str(c.name@) + enc_opt_str(c.parent) + seq![
                c.fields.entries_seq().len() as u64,
            ] + enc_field_entries(c.fields.entries_seq()) + seq![
                c.methods.entries_seq().len() as u64,
            ] + enc_fn_entries(c.methods.entries_seq().take(k as int)),
        decreases m_count - k,
    {
        write_str(out, c.methods.key_at(k).as_str());
        write_fn(out, c.methods.value_at(k));
        proof {
            assert(c.methods.entries_seq().take(k + 1int).drop_last() =~= c.methods.entries_seq()
                .take(k as int));
            assert(c.methods.entries_seq().take(k + 1int).last() == c.methods.entries_seq()[
                k as int]);
        }
        k = k + 1;
    }
    proof {
        assert(c.methods.entries_seq().take(m_count as int) =~= c.methods.entries_seq());
    }
    match &c.constructor {
        None => out.push(0),
        Some(f) => {
            out.push(1);
            write_fn(out, f);
        },
    }
    write_access(out, &c.access_level);
    proof {
        assert(out@ =~= old(out)@ + enc_class(*c));
    }
}

/// Encodes a whole program into its token sequence.
#[verifier::rlimit(100)]
pub fn program_to_tokens(p: &BytecodeProgram) -> (r: Vec<u64>)
    ensures
        r@ == enc_program(*p),
{
    let mut out: Vec<u64> = Vec::new();
    out.push(ARTIFACT_MAGIC);
    out.push(p.version as u64);
    write_str(&mut out, p.name.as_str());
    out.push(p.constants.len() as u64);
    let c_count = p.constants.len();
    let mut i: usize = 0;
    while i < c_count
        invariant
            c_count == p.constants@.len(),
            i <= c_count,
            out@ == seq![ARTIFACT_MAGIC, p.version as u64] + enc_str(p.name@) + seq![
                p.constants@.len() as u64,
            ] + enc_value_list(p.constants@.take(i as int)),
        decreases c_count - i,
    {
        write_value(&mut out, &p.constants[i]);
        proof {
            assert(p.constants@.take(i + 1int).drop_last() =~= p.constants@.take(i as int));
            assert(p.constants@.take(i + 1int).last() == p.constants@[i as int]);
        }
        i = i + 1;
    }
    proof {
        assert(p.constants@.take(c_count as int) =~= p.constants@);
    }
    let ghost head1 = seq![ARTIFACT_MAGIC, p.version as u64] + enc_str(p.name@) + seq![
        p.constants@.len() as u64,
    ] + enc_value_list(p.constants@);
    out.push(p.functions.len() as u64);
    let f_count = p.functions.len();
    let mut k: usize = 0;
    while k < f_count
        invariant
            f_count == p.functions.entries_seq().len(),
            k <= f_count,
            out@ == head1 + seq![p.functions.entries_seq().len() as u64] + enc_fn_entries(
                p.functions.entries_seq().take(k as int),
            ),
        decreases f_count - k,
    {
        write_str(&mut out, p.functions.key_at(k).as_str());
        write_fn(&mut out, p.functions.value_at(k));
        proof {
            assert(p.functions.entries_seq().take(k + 1int).drop_last() =~= p.functions
                .entries_seq().take(k as int));
            assert(p.functions.entries_seq().take(k + 1int).last() == p.functions.entries_seq()[
                k as int]);
        }
        k = k + 1;
    }
    proof {
        assert(p.functions.entries_seq().take(f_count as int) =~= p.functions.entries_seq());
    }
    let ghost head2 = head1 + seq![p.functions.entries_seq().len() as u64] + enc_fn_entries(
        p.functions.entries_seq(),
    );
    out.push(p.classes.len() as u64);
    let cl_count = p.classes.len();
    let mut m: usize = 0;
    while m < cl_count
        invariant
            cl_count == p.classes.entries_seq().len(),
            m <= cl_count,
            out@ == head2 + seq![p.classes.entries_seq().len() as u64] + enc_class_entries(
                p.classes.entries_seq().take(m as int),
            ),
        decreases cl_count - m,
    {
        write_str(&mut out, p.classes.key_at(m).as_str());
        write_class(&mut out, p.classes.value_at(m));
        proof {
            assert(p.classes.entries_seq().take(m + 1int).drop_last() =~= p.classes.entries_seq()
                .take(m as int));
            assert(p.classes.entries_seq().take(m + 1int).last() == p.classes.entries_seq()[
                m as int]);
        }
        m = m + 1;
    }
    proof {
        assert(p.classes.entries_seq().take(cl_count as int) =~= p.classes.entries_seq());
    }
    let ghost head3 = head2 + seq![p.classes.entries_seq().len() as u64] + enc_class_entries(
        p.classes.entries_seq(),
    );
    write_str(&mut out, p.main_function.as_str());
    out.push(p.globals.len() as u64);
    let g_count = p.globals.len();
    let mut g: usize = 0;
    while g < g_count
        invariant
            g_count == p.globals.entries_seq().len(),
            g <= g_count,
            out@ == head3 + enc_str(p.main_function@) + seq![
                p.globals.entries_seq().len() as u64,
            ] + enc_value_entries(p.globals.entries_seq().take(g as int)),
        decreases g_count - g,
    {
        write_str(&mut out, p.globals.key_at(g).as_str());
        write_value(&mut out, p.globals.value_at(g));
        proof {
            assert(p.globals.entries_seq().take(g + 1int).drop_last() =~= p.globals.entries_seq()
                .take(g as int));
            assert(p.globals.entries_seq().take(g + 1int).last() == p.globals.entries_seq()[
                g as int]);
        }
        g = g + 1;
    }
    proof {
        assert(p.globals.entries_seq().take(g_count as int) =~= p.globals.entries_seq());
        assert(out@ =~= enc_program(*p));
    }
    out
}

/// Whether every string in an instruction is machine-representable.
pub open spec fn instr_fits(i: Instruction) -> bool {
    match i {
        Instruction::PUSH(v) => value_fits(v),
        Instruction::LOAD_VAR(s) => s@.len() <= usize::MAX,
        Instruction::STORE_VAR(s) => s@.len() <= usize::MAX,
        Instruction::CALL(s) => s@.len() <= usize::MAX,
        Instruction::CALL_NATIVE(s) => s@.len() <= usize::MAX,
        Instruction::NEW(s) => s@.len() <= usize::MAX,
        Instruction::GET_FIELD(s) => s@.len() <= usize::MAX,
        Instruction::SET_FIELD(s) => s@.len() <= usize::MAX,
        Instruction::GET_METHOD(s) => s@.len() <= usize::MAX,
        Instruction::CAST(s) => s@.len() <= usize::MAX,
        Instruction::IS_TYPE(s) => s@.len() <= usize::MAX,
        _ => true,
    }
}

/// Whether every name in a list is machine-representable, the list
/// included.
pub open spec fn names_fit(s: Seq<String>) -> bool {
    &&& s.len() <= usize::MAX
    &&& forall|i: int| 0 <= i < s.len() ==> (#[trigger] s[i])@.len() <= usize::MAX
}

/// Whether an optional string is machine-representable.
pub open spec fn opt_str_fits(o: Option<String>) -> bool {
    match o {
        None => true,
        Some(s) => s@.len() <= usize::MAX,
    }
}

/// Whether a function's strings and lists are machine-representable.
pub open spec fn fn_fits(f: Function) -> bool {
    &&& f.name@.len() <= usize::MAX
    &&& names_fit(f.parameters@)
    &&& names_fit(f.locals@)
    &&& f.instructions@.len() <= usize::MAX
    &&& (forall|i: int|
        0 <= i < f.instructions@.len() ==> instr_fits(#[trigger] f.instructions@[i]))
    &&& opt_str_fits(f.return_type)
}

/// Whether a field descriptor's strings are machine-representable.
pub open spec fn field_fits(fd: Field) -> bool {
    &&& fd.name@.len() <= usize::MAX
    &&& fd.field_type@.len() <= usize::MAX
    &&& (match fd.default_value {
        None => true,
        Some(v) => value_fits(v),
    })
}

/// Whether a class's strings, lists and tables are machine-representable.
pub open spec fn class_fits(c: Class) -> bool {
    &&& c.name@.len() <= usize::MAX
    &&& opt_str_fits(c.parent)
    &&& c.fields.entries_seq().len() <= usize::MAX
    &&& (forall|i: int|
        0 <= i < c.fields.entries_seq().len() ==> (#[trigger] c.fields.entries_seq()[
            i]).0@.len() <= usize::MAX && field_fits(c.fields.entries_seq()[i].1))
    &&& c.methods.entries_seq().len() <= usize::MAX
    &&& (forall|i: int|
        0 <= i < c.methods.entries_seq().len() ==> (#[trigger] c.methods.entries_seq()[
            i]).0@.len() <= usize::MAX && fn_fits(c.methods.entries_seq()[i].1))
    &&& (match c.constructor {
        None => true,
        Some(f) => fn_fits(f),
    })
}

/// Whether a whole program's strings, lists and tables are
/// machine-representable, so that its encoding decodes.
pub open spec fn prog_fits(p: BytecodeProgram) -> bool {
    &&& p.name@.len() <= usize::MAX
    &&& p.main_function@.len() <= usize::MAX
    &&& p.constants@.len() <= usize::MAX
    &&& (forall|i: int| 0 <= i < p.constants@.len() ==> value_fits(#[trigger] p.constants@[i]))
    &&& p.functions.entries_seq().len() <= usize::MAX
    &&& (forall|i: int|
        0 <= i < p.functions.entries_seq().len() ==> (#[trigger] p.functions.entries_seq()[
            i]).0@.len() <= usize::MAX && fn_fits(p.functions.entries_seq()[i].1))
    &&& p.classes.entries_seq().len() <= usize::MAX
    &&& (forall|i: int|
        0 <= i < p.classes.entries_seq().len() ==> (#[trigger] p.classes.entries_seq()[
            i]).0@.len() <= usize::MAX && class_fits(p.classes.entries_seq()[i].1))
    &&& p.globals.entries_seq().len() <= usize::MAX
    &&& (forall|i: int|
        0 <= i < p.globals.entries_seq().len() ==> (#[trigger] p.globals.entries_seq()[
            i]).0@.len() <= usize::MAX && value_fits(p.globals.entries_seq()[i].1))
}

/// Distinct strings have distinct token encodings.
proof fn lemma_enc_str_injective(a: Seq<char>, b: Seq<char>)
    requires
        enc_str(a) == enc_str(b),
        a.len() <= usize::MAX,
        b.len() <= usize::MAX,
    ensures
        a == b,
{
    assert(enc_str(a)[0] == a.len() as u64);
    assert(enc_str(b)[0] == b.len() as u64);
    assert(a.len() == b.len());
    assert forall|i: int| 0 <= i < a.len() implies a[i] == b[i] by {
        assert(enc_str(a)[1 + i] == (a[i] as u32) as u64);
        assert(enc_str(b)[1 + i] == (b[i] as u32) as u64);
        assert((a[i] as u32) as u64 == (b[i] as u32) as u64);
        assert(a[i] as u32 == b[i] as u32);
        vstd::utf8::char_u32_cast(a[i], a[i] as u32);
        vstd::utf8::char_u32_cast(b[i], b[i] as u32);
    }
    assert(a =~= b);
}

/// Whether the tokens from a position onward begin with the encoding of
/// the given name list (its length, then the names).
#[verifier::opaque]
pub open spec fn names_decodable(tokens: Seq<u64>, pos: int, ns0: Seq<String>) -> bool {
    &&& names_fit(ns0)
    &&& pos + 1 + enc_name_list(ns0).len() <= tokens.len()
    &&& tokens.subrange(pos, pos + 1 + enc_name_list(ns0).len()) == seq![ns0.len() as u64]
        + enc_name_list(ns0)
}

/// Reads a name list with its length; the encoding of the witnessed name
/// list, when one is given, is accepted and consumed exactly.
#[verifier::rlimit(100)]
#[verifier::spinoff_prover]
fn read_names(tokens: &Vec<u64>, pos: usize, w: Ghost<Option<Seq<String>>>) -> (r: Option<
    (Vec<String>, usize),
>)
    ensures
        r matches Some((names, end)) ==> pos <= end <= tokens@.len() && tokens@.subrange(
            pos as int,
            end as int,
        ) == seq![names@.len() as u64] + enc_name_list(names@),
        w@ is Some && names_decodable(tokens@, pos as int, w@->0) ==> (r matches Some(
            (names, end),
        ) && end == pos + 1 + enc_name_list(w@->0).len() && enc_name_list(names@)
            == enc_name_list(w@->0)),
{
    let ghost has = w@ is Some && names_decodable(tokens@, pos as int, w@->0);
    let ghost ns0: Seq<String> = if w@ is Some {
        w@->0
    } else {
        Seq::empty()
    };
    let ghost f = |n: String| enc_str(n@);
    proof {
        reveal(names_decodable);
        if has {
            assert forall|j: int| 0 <= j < ns0.len() implies (#[trigger] f(ns0[j])).len()
                >= 1 by {}
            lemma_concat_map_min_len(ns0, f);
            lemma_window_split(
                tokens@,
                pos as int,
                seq![ns0.len() as u64],
                enc_name_list(ns0),
            );
            assert(tokens@[pos as int] == tokens@.subrange(pos as int, pos + 1int)[0]);
        }
    }
    if pos >= tokens.len() {
        proof {
            if has {
                assert(false);
            }
        }
        return None;
    }
    let count_token = tokens[pos];
    if count_token > usize::MAX as u64 {
        proof {
            if has {
                assert(false);
            }
        }
        return None;
    }
    let count = count_token as usize;
    if count > tokens.len() - pos - 1 {
        proof {
            if has {
                assert(false);
            }
        }
        return None;
    }
    let mut names: Vec<String> = Vec::new();
    let mut cur = pos + 1;
    let mut i: usize = 0;
    while i < count
        invariant
            tokens@.len() <= usize::MAX,
            pos + 1 <= cur <= tokens@.len(),
            i <= count,
            names@.len() == i,
            tokens@.subrange(pos + 1int, cur as int) == enc_name_list(names@),
            f == (|n: String| enc_str(n@)),
            has == (w@ is Some && names_decodable(tokens@, pos as int, w@->0)),
            ns0 == (if w@ is Some { w@->0 } else { Seq::<String>::empty() }),
            has ==> {
                &&& names_decodable(tokens@, pos as int, ns0)
                &&& count == ns0.len()
                &&& enc_name_list(names@) == enc_name_list(ns0.take(i as int))
                &&& cur == pos + 1 + enc_name_list(ns0.take(i as int)).len()
            },
        decreases count - i,
    {
        proof {
            reveal(names_decodable);
            if has {
                lemma_window_split(
                    tokens@,
                    pos as int,
                    seq![ns0.len() as u64],
                    enc_name_list(ns0),
                );
                lemma_list_window(tokens@, pos + 1int, ns0, f, i as int);
                assert(str_decodable(tokens@, cur as int, ns0[i as int]@)) by {
                    reveal(str_decodable);
                }
            }
        }
        let (s, next) = match read_str(tokens, cur) {
            Some(x) => x,
            None => {
                proof {
                    if has {
                        assert(false);
                    }
                }
                return None;
            },
        };
        let ghost before = names@;
        names.push(s);
        proof {
            assert(names@.drop_last() =~= before);
            assert(enc_name_list(names@) == enc_name_list(before) + enc_str(s@));
            assert(tokens@.subrange(pos + 1int, next as int) =~= tokens@.subrange(
                pos + 1int,
                cur as int,
            ) + tokens@.subrange(cur as int, next as int));
            if has {
                assert(next == cur + enc_str(ns0[i as int]@).len());
                assert(tokens@.subrange(cur as int, next as int) =~= enc_str(ns0[i as int]@));
                assert(enc_str(s@) == enc_str(ns0[i as int]@));
            }
        }
        cur = next;
        i = i + 1;
    }
    proof {
        assert(tokens@.subrange(pos as int, cur as int) =~= seq![names@.len() as u64]
            + enc_name_list(names@));
        if has {
            assert(ns0.take(count as int) =~= ns0);
        }
    }
    Some((names, cur))
}

/// Whether the tokens from a position onward begin with the encoding of
/// the given instruction list (its length, then the instructions).
#[verifier::opaque]
pub open spec fn instrs_decodable(tokens: Seq<u64>, pos: int, is0: Seq<Instruction>) -> bool {
    &&& is0.len() <= usize::MAX
    &&& (forall|i: int| 0 <= i < is0.len() ==> instr_fits(#[trigger] is0[i]))
    &&& pos + 1 + enc_instr_list(is0).len() <= tokens.len()
    &&& tokens.subrange(pos, pos + 1 + enc_instr_list(is0).len()) == seq![is0.len() as u64]
        + enc_instr_list(is0)
}

/// Reads an instruction list with its length; the encoding of the
/// witnessed list, when one is given, is accepted and consumed exactly.
#[verifier::rlimit(100)]
#[verifier::spinoff_prover]
fn read_instrs(tokens: &Vec<u64>, pos: usize, w: Ghost<Option<Seq<Instruction>>>) -> (r: Option<
    (Vec<Instruction>, usize),
>)
    ensures
        r matches Some((instrs, end)) ==> pos <= end <= tokens@.len() && tokens@.subrange(
            pos as int,
            end as int,
        ) == seq![instrs@.len() as u64] + enc_instr_list(instrs@),
        w@ is Some && instrs_decodable(tokens@, pos as int, w@->0) ==> (r matches Some(
            (instrs, end),
        ) && end == pos + 1 + enc_instr_list(w@->0).len() && enc_instr_list(instrs@)
            == enc_instr_list(w@->0)),
{
    let ghost has = w@ is Some && instrs_decodable(tokens@, pos as int, w@->0);
    let ghost is0: Seq<Instruction> = if w@ is Some {
        w@->0
    } else {
        Seq::empty()
    };
    let ghost f = |ix: Instruction| enc_instr(ix);
    proof {
        reveal(instrs_decodable);
        if has {
            assert forall|j: int| 0 <= j < is0.len() implies (#[trigger] f(is0[j])).len()
                >= 1 by {}
            lemma_concat_map_min_len(is0, f);
            lemma_window_split(
                tokens@,
                pos as int,
                seq![is0.len() as u64],
                enc_instr_list(is0),
            );
            assert(tokens@[pos as int] == tokens@.subrange(pos as int, pos + 1int)[0]);
        }
    }
    if pos >= tokens.len() {
        proof {
            if has {
                assert(false);
            }
        }
        return None;
    }
    let count_token = tokens[pos];
    if count_token > usize::MAX as u64 {
        proof {
            if has {
                assert(false);
            }
        }
        return None;
    }
    let count = count_token as usize;
    if count > tokens.len() - pos - 1 {
        proof {
            if has {
                assert(false);
            }
        }
        return None;
    }
    let mut instrs: Vec<Instruction> = Vec::new();
    let mut cur = pos + 1;
    let mut i: usize = 0;
    while i < count
        invariant
            tokens@.len() <= usize::MAX,
            pos + 1 <= cur <= tokens@.len(),
            i <= count,
            instrs@.len() == i,
            tokens@.subrange(pos + 1int, cur as int) == enc_instr_list(instrs@),
            f == (|ix: Instruction| enc_instr(ix)),
            has == (w@ is Some && instrs_decodable(tokens@, pos as int, w@->0)),
            is0 == (if w@ is Some { w@->0 } else { Seq::<Instruction>::empty() }),
            has ==> {
                &&& instrs_decodable(tokens@, pos as int, is0)
                &&& count == is0.len()
                &&& enc_instr_list(instrs@) == enc_instr_list(is0.take(i as int))
                &&& cur == pos + 1 + enc_instr_list(is0.take(i as int)).len()
            },
        decreases count - i,
    {
        proof {
            reveal(instrs_decodable);
            if has {
                lemma_window_split(
                    tokens@,
                    pos as int,
                    seq![is0.len() as u64],
                    enc_instr_list(is0),
                );
                lemma_list_window(tokens@, pos + 1int, is0, f, i as int);
                assert(instr_decodable(tokens@, cur as int, is0[i as int])) by {
                    reveal(instr_decodable);
                }
            }
        }
        let (instr, next) = match read_instr(tokens, cur) {
            Some(x) => x,
            None => {
                proof {
                    if has {
                        assert(false);
                    }
                }
                return None;
            },
        };
        let ghost before = instrs@;
        instrs.push(instr);
        proof {
            assert(instrs@.drop_last() =~= before);
            assert(enc_instr_list(instrs@) == enc_instr_list(before) + enc_instr(instr));
            assert(tokens@.subrange(pos + 1int, next as int) =~= tokens@.subrange(
                pos + 1int,
                cur as int,
            ) + tokens@.subrange(cur as int, next as int));
            if has {
                assert(next == cur + enc_instr(is0[i as int]).len());
                assert(tokens@.subrange(cur as int, next as int) =~= enc_instr(is0[i as int]));
                assert(enc_instr(instr) == enc_instr(is0[i as int]));
            }
        }
        cur = next;
        i = i + 1;
    }
    proof {
        assert(tokens@.subrange(pos as int, cur as int) =~= seq![instrs@.len() as u64]
            + enc_instr_list(instrs@));
        if has {
            assert(is0.take(count as int) =~= is0);
        }
    }
    Some((instrs, cur))
}

/// Whether the tokens from a position onward begin with the encoding of
/// the given optional string.
#[verifier::opaque]
pub open spec fn opt_str_decodable(tokens: Seq<u64>, pos: int, o0: Option<String>) -> bool {
    opt_str_fits(o0) && pos + enc_opt_str(o0).len() <= tokens.len() && tokens.subrange(
        pos,
        pos + enc_opt_str(o0).len(),
    ) == enc_opt_str(o0)
}

/// Reads an optional string; the encoding of any optional string is
/// accepted.
fn read_opt_str(tokens: &Vec<u64>, pos: usize) -> (r: Option<(Option<String>, usize)>)
    ensures
        r matches Some((o, end)) ==> pos <= end <= tokens@.len() && tokens@.subrange(
            pos as int,
            end as int,
        ) == enc_opt_str(o),
        forall|o0: Option<String>|
            #[trigger] opt_str_decodable(tokens@, pos as int, o0) ==> (r matches Some((o, end))
                && end == pos + enc_opt_str(o0).len()),
{
    let ghost has = exists|o0: Option<String>| #[trigger] opt_str_decodable(
        tokens@,
        pos as int,
        o0,
    );
    let ghost o0: Option<String> = if has {
        choose|o0: Option<String>| #[trigger] opt_str_decodable(tokens@, pos as int, o0)
    } else {
        None
    };
    proof {
        reveal(opt_str_decodable);
        if has {
            assert(tokens@.subrange(pos as int, pos + enc_opt_str(o0).len())[0] == enc_opt_str(
                o0,
            )[0]);
            assert(tokens@[pos as int] == enc_opt_str(o0)[0]);
            if o0 is Some {
                let sv = o0->0@;
                assert(enc_opt_str(o0) =~= seq![1u64] + enc_str(sv));
                assert forall|j: int|
                    0 <= j < enc_str(sv).len() implies tokens@[pos + 1 + j] == enc_str(sv)[j] by {
                    assert(tokens@.subrange(pos as int, pos + enc_opt_str(o0).len())[1 + j]
                        == enc_opt_str(o0)[1 + j]);
                }
                assert(tokens@.subrange(pos + 1int, pos + 1 + enc_str(sv).len()) =~= enc_str(sv));
                assert(str_decodable(tokens@, pos + 1int, sv)) by {
                    reveal(str_decodable);
                }
            }
        }
    }
    if pos >= tokens.len() {
        proof {
            if has {
                assert(false);
            }
        }
        return None;
    }
    let tag = tokens[pos];
    if tag == 0 {
        proof {
            assert(tokens@.subrange(pos as int, pos + 1int) =~= enc_opt_str(
                None::<String>,
            ));
            reveal(opt_str_decodable);
            assert forall|ox: Option<String>|
                opt_str_decodable(tokens@, pos as int, ox) implies pos + 1 == pos + enc_opt_str(
                ox,
            ).len() by {
                assert(tokens@.subrange(pos as int, pos + enc_opt_str(ox).len())[0]
                    == enc_opt_str(ox)[0]);
            }
        }
        Some((None, pos + 1))
    } else if tag == 1 {
        match read_str(tokens, pos + 1) {
            Some((s, end)) => {
                proof {
                    assert(tokens@.subrange(pos as int, end as int) =~= enc_opt_str(
                        Some(s),
                    ));
                    reveal(opt_str_decodable);
                    assert forall|ox: Option<String>|
                        opt_str_decodable(tokens@, pos as int, ox) implies end == pos
                        + enc_opt_str(ox).len() by {
                        assert(tokens@.subrange(pos as int, pos + enc_opt_str(ox).len())[0]
                            == enc_opt_str(ox)[0]);
                        assert(ox is Some);
                        let sx = ox->0;
                        assert(enc_opt_str(ox) =~= seq![1u64] + enc_str(sx@));
                        assert forall|j: int|
                            0 <= j < enc_str(sx@).len() implies tokens@[pos + 1 + j] == enc_str(
                            sx@,
                        )[j] by {
                            assert(tokens@.subrange(pos as int, pos + enc_opt_str(ox).len())[1
                                + j] == enc_opt_str(ox)[1 + j]);
                        }
                        assert(tokens@.subrange(pos + 1int, pos + 1 + enc_str(sx@).len())
                            =~= enc_str(sx@));
                        assert(str_decodable(tokens@, pos + 1int, sx@)) by {
                            reveal(str_decodable);
                        }
                        assert(end == pos + 1 + enc_str(sx@).len());
                    }
                }
                Some((Some(s), end))
            },
            None => {
                proof {
                    if has {
                        assert(false);
                    }
                }
                None
            },
        }
    } else {
        proof {
            if has {
                assert(false);
            }
        }
        None
    }
}

/// Reads an access level.
fn read_access(tokens: &Vec<u64>, pos: usize) -> (r: Option<(AccessLevel, usize)>)
    ensures
        r matches Some((a, end)) ==> end == pos + 1 && end <= tokens@.len() && tokens@.subrange(
            pos as int,
            end as int,
        ) == enc_access(a),
        forall|a0: AccessLevel|
            pos + 1 <= tokens@.len() && tokens@.subrange(pos as int, pos + 1int)
                == #[trigger] enc_access(a0) ==> (r matches Some((a, end)) && end == pos + 1),
{
    proof {
        assert forall|a0: AccessLevel|
            pos + 1 <= tokens@.len() && tokens@.subrange(pos as int, pos + 1int) == enc_access(
                a0,
            ) implies pos < tokens@.len() && tokens@[pos as int] <= 2 by {
            assert(tokens@.subrange(pos as int, pos + 1int)[0] == enc_access(a0)[0]);
        }
    }
    if pos >= tokens.len() {
        return None;
    }
    let tag = tokens[pos];
    let a = if tag == 0 {
        AccessLevel::Public
    } else if tag == 1 {
        AccessLevel::Private
    } else if tag == 2 {
        AccessLevel::Protected
    } else {
        return None;
    };
    proof {
        assert(tokens@.subrange(pos as int, pos + 1int) =~= enc_access(a));
    }
    Some((a, pos + 1))
}

/// Whether the tokens from a position onward begin with the encoding of
/// the given function.
#[verifier::opaque]
pub open spec fn fn_decodable(tokens: Seq<u64>, pos: int, f0: Function) -> bool {
    fn_fits(f0) && pos + enc_fn(f0).len() <= tokens.len() && tokens.subrange(
        pos,
        pos + enc_fn(f0).len(),
    ) == enc_fn(f0)
}

/// Unpacks the window of a decodable function into the windows of its
/// parts.
#[verifier::rlimit(100)]
#[verifier::spinoff_prover]
proof fn lemma_fn_windows(tokens: Seq<u64>, pos: int, f0: Function)
    requires
        0 <= pos,
        fn_decodable(tokens, pos, f0),
    ensures
        ({
            let o1 = pos + enc_str(f0.name@).len();
            let o2 = o1 + 1 + enc_name_list(f0.parameters@).len();
            let o3 = o2 + 1 + enc_name_list(f0.locals@).len();
            let o4 = o3 + 1 + enc_instr_list(f0.instructions@).len();
            let o5 = o4 + enc_opt_str(f0.return_type).len();
            &&& pos + enc_fn(f0).len() == o5 + 1
            &&& o5 + 1 <= tokens.len()
            &&& str_decodable(tokens, pos, f0.name@)
            &&& names_decodable(tokens, o1, f0.parameters@)
            &&& names_decodable(tokens, o2, f0.locals@)
            &&& instrs_decodable(tokens, o3, f0.instructions@)
            &&& opt_str_decodable(tokens, o4, f0.return_type)
            &&& tokens.subrange(o5, o5 + 1) == enc_access(f0.access_level)
            &&& tokens.subrange(pos, pos + enc_fn(f0).len()) == enc_fn(f0)
        }),
{
    reveal(fn_decodable);
    reveal(str_decodable);
    reveal(names_decodable);
    reveal(instrs_decodable);
    reveal(opt_str_decodable);
    let c1 = enc_str(f0.name@);
    let c2 = seq![f0.parameters@.len() as u64] + enc_name_list(f0.parameters@);
    let c3 = seq![f0.locals@.len() as u64] + enc_name_list(f0.locals@);
    let c4 = seq![f0.instructions@.len() as u64] + enc_instr_list(f0.instructions@);
    let c5 = enc_opt_str(f0.return_type);
    let c6 = enc_access(f0.access_level);
    assert(enc_fn(f0) =~= c1 + (c2 + (c3 + (c4 + (c5 + c6)))));
    lemma_window_split(tokens, pos, c1, c2 + (c3 + (c4 + (c5 + c6))));
    lemma_window_split(tokens, pos + c1.len(), c2, c3 + (c4 + (c5 + c6)));
    lemma_window_split(tokens, pos + c1.len() + c2.len(), c3, c4 + (c5 + c6));
    lemma_window_split(tokens, pos + c1.len() + c2.len() + c3.len(), c4, c5 + c6);
    lemma_window_split(tokens, pos + c1.len() + c2.len() + c3.len() + c4.len(), c5, c6);
}

/// Assembles the windows of a function's parts into the window of the
/// function.
#[verifier::rlimit(100)]
#[verifier::spinoff_prover]
proof fn lemma_fn_assemble(
    tokens: Seq<u64>,
    f: Function,
    pos: int,
    p1: int,
    p2: int,
    p3: int,
    p4: int,
    p5: int,
    p6: int,
)
    requires
        0 <= pos <= p1 <= p2 <= p3 <= p4 <= p5 <= p6 <= tokens.len(),
        tokens.subrange(pos, p1) == enc_str(f.name@),
        tokens.subrange(p1, p2) == seq![f.parameters@.len() as u64] + enc_name_list(
            f.parameters@,
        ),
        tokens.subrange(p2, p3) == seq![f.locals@.len() as u64] + enc_name_list(f.locals@),
        tokens.subrange(p3, p4) == seq![f.instructions@.len() as u64] + enc_instr_list(
            f.instructions@,
        ),
        tokens.subrange(p4, p5) == enc_opt_str(f.return_type),
        tokens.subrange(p5, p6) == enc_access(f.access_level),
    ensures
        tokens.subrange(pos, p6) == enc_fn(f),
{
    assert(tokens.subrange(pos, p6) =~= tokens.subrange(pos, p1) + tokens.subrange(p1, p2)
        + tokens.subrange(p2, p3) + tokens.subrange(p3, p4) + tokens.subrange(p4, p5)
        + tokens.subrange(p5, p6));
    assert(tokens.subrange(pos, p6) =~= enc_fn(f));
}

/// Reads a function; the encoding of the witnessed function, when one is
/// given, is accepted and consumed exactly.
#[verifier::rlimit(100)]
#[verifier::spinoff_prover]
fn read_fn(tokens: &Vec<u64>, pos: usize, w: Ghost<Option<Function>>) -> (r: Option<
    (Function, usize),
>)
    ensures
        r matches Some((f, end)) ==> pos <= end <= tokens@.len() && tokens@.subrange(
            pos as int,
            end as int,
        ) == enc_fn(f),
        w@ is Some && fn_decodable(tokens@, pos as int, w@->0) ==> (r matches Some((f, end))
            && end == pos + enc_fn(w@->0).len() && enc_fn(f) == enc_fn(w@->0)),
{
    let ghost has = w@ is Some && fn_decodable(tokens@, pos as int, w@->0);
    let ghost f0: Function = if w@ is Some {
        w@->0
    } else {
        vstd::pervasive::arbitrary()
    };
    let ghost o1 = pos + enc_str(f0.name@).len();
    let ghost o2 = o1 + 1 + enc_name_list(f0.parameters@).len();
    let ghost o3 = o2 + 1 + enc_name_list(f0.locals@).len();
    let ghost o4 = o3 + 1 + enc_instr_list(f0.instructions@).len();
    let ghost o5 = o4 + enc_opt_str(f0.return_type).len();
    proof {
        if has {
            lemma_fn_windows(tokens@, pos as int, f0);
        }
    }
    let (name, p1) = match read_str(tokens, pos) {
        Some(x) => x,
        None => {
            proof {
                if has {
                    assert(false);
                }
            }
            return None;
        },
    };
    proof {
        if has {
            assert(p1 == o1);
        }
    }
    let (parameters, p2) = match read_names(
        tokens,
        p1,
        Ghost(
            if has {
                Some(f0.parameters@)
            } else {
                None
            },
        ),
    ) {
        Some(x) => x,
        None => {
            proof {
                if has {
                    assert(false);
                }
            }
            return None;
        },
    };
    proof {
        if has {
            assert(p2 == o2);
        }
    }
    let (locals, p3) = match read_names(
        tokens,
        p2,
        Ghost(
            if has {
                Some(f0.locals@)
            } else {
                None
            },
        ),
    ) {
        Some(x) => x,
        None => {
            proof {
                if has {
                    assert(false);
                }
            }
            return None;
        },
    };
    proof {
        if has {
            assert(p3 == o3);
        }
    }
    let (instructions, p4) = match read_instrs(
        tokens,
        p3,
        Ghost(
            if has {
                Some(f0.instructions@)
            } else {
                None
            },
        ),
    ) {
        Some(x) => x,
        None => {
            proof {
                if has {
                    assert(false);
                }
            }
            return None;
        },
    };
    proof {
        if has {
            assert(p4 == o4);
        }
    }
    let (return_type, p5) = match read_opt_str(tokens, p4) {
        Some(x) => x,
        None => {
            proof {
                if has {
                    assert(false);
                }
            }
            return None;
        },
    };
    proof {
        if has {
            assert(p5 == o5);
            assert(tokens@.subrange(p5 as int, p5 + 1int) == enc_access(f0.access_level));
        }
    }
    let (access_level, p6) = match read_access(tokens, p5) {
        Some(x) => x,
        None => {
            proof {
                if has {
                    assert(false);
                }
            }
            return None;
        },
    };
    let f = Function { name, parameters, locals, instructions, return_type, access_level };
    proof {
        lemma_fn_assemble(
            tokens@,
            f,
            pos as int,
            p1 as int,
            p2 as int,
            p3 as int,
            p4 as int,
            p5 as int,
            p6 as int,
        );
        if has {
            assert(p6 == pos + enc_fn(f0).len());
            assert(enc_fn(f) == tokens@.subrange(pos as int, pos + enc_fn(f0).len()));
            assert(enc_fn(f) == enc_fn(f0));
        }
    }
    Some((f, p6))
}

/// Whether the tokens from a position onward begin with the encoding of
/// the given optional value.
#[verifier::opaque]
pub open spec fn opt_value_decodable(tokens: Seq<u64>, pos: int, o0: Option<Value>) -> bool {
    &&& (match o0 {
        None => true,
        Some(v) => value_fits(v),
    })
    &&& pos + enc_opt_value(o0).len() <= tokens.len()
    &&& tokens.subrange(pos, pos + enc_opt_value(o0).len()) == enc_opt_value(o0)
}

/// Reads an optional value; the encoding of the witnessed optional
/// value, when one is given, is accepted and consumed exactly.
#[verifier::rlimit(100)]
#[verifier::spinoff_prover]
fn read_opt_value(tokens: &Vec<u64>, pos: usize, w: Ghost<Option<Option<Value>>>) -> (r: Option<
    (Option<Value>, usize),
>)
    ensures
        r matches Some((o, end)) ==> pos <= end <= tokens@.len() && tokens@.subrange(
            pos as int,
            end as int,
        ) == enc_opt_value(o),
        w@ is Some && opt_value_decodable(tokens@, pos as int, w@->0) ==> (r matches Some(
            (o, end),
        ) && end == pos + enc_opt_value(w@->0).len()),
{
    let ghost has = w@ is Some && opt_value_decodable(tokens@, pos as int, w@->0);
    let ghost o0: Option<Value> = if w@ is Some {
        w@->0
    } else {
        None
    };
    proof {
        reveal(opt_value_decodable);
        if has {
            assert(tokens@.subrange(pos as int, pos + enc_opt_value(o0).len())[0]
                == enc_opt_value(o0)[0]);
            assert(tokens@[pos as int] == enc_opt_value(o0)[0]);
            if o0 is Some {
                let v0 = o0->0;
                assert(enc_opt_value(o0) =~= seq![1u64] + enc_value(v0));
                lemma_window_split(tokens@, pos as int, seq![1u64], enc_value(v0));
                assert(value_decodable(tokens@, pos + 1int, v0)) by {
                    reveal(value_decodable);
                }
            }
        }
    }
    if pos >= tokens.len() {
        proof {
            if has {
                assert(false);
            }
        }
        return None;
    }
    let tag = tokens[pos];
    if tag == 0 {
        proof {
            assert(tokens@.subrange(pos as int, pos + 1int) =~= enc_opt_value(None::<Value>));
        }
        Some((None, pos + 1))
    } else if tag == 1 {
        match read_value(tokens, pos + 1) {
            Some((v, end)) => {
                proof {
                    assert(tokens@.subrange(pos as int, end as int) =~= enc_opt_value(Some(v)));
                    if has {
                        assert(end == pos + 1 + enc_value(o0->0).len());
                    }
                }
                Some((Some(v), end))
            },
            None => {
                proof {
                    if has {
                        assert(false);
                    }
                }
                None
            },
        }
    } else {
        proof {
            if has {
                assert(false);
            }
        }
        None
    }
}

/// Whether the tokens from a position onward begin with the encoding of
/// the given field descriptor.
#[verifier::opaque]
pub open spec fn field_decodable(tokens: Seq<u64>, pos: int, fd0: Field) -> bool {
    field_fits(fd0) && pos + enc_field(fd0).len() <= tokens.len() && tokens.subrange(
        pos,
        pos + enc_field(fd0).len(),
    ) == enc_field(fd0)
}

/// Reads a field descriptor; the encoding of the witnessed descriptor,
/// when one is given, is accepted and consumed exactly.
#[verifier::rlimit(100)]
#[verifier::spinoff_prover]
fn read_field(tokens: &Vec<u64>, pos: usize, w: Ghost<Option<Field>>) -> (r: Option<
    (Field, usize),
>)
    ensures
        r matches Some((fd, end)) ==> pos <= end <= tokens@.len() && tokens@.subrange(
            pos as int,
            end as int,
        ) == enc_field(fd),
        w@ is Some && field_decodable(tokens@, pos as int, w@->0) ==> (r matches Some((fd, end))
            && end == pos + enc_field(w@->0).len() && enc_field(fd) == enc_field(w@->0)),
{
    let ghost has = w@ is Some && field_decodable(tokens@, pos as int, w@->0);
    let ghost fd0: Field = if w@ is Some {
        w@->0
    } else {
        vstd::pervasive::arbitrary()
    };
    let ghost c1 = enc_str(fd0.name@);
    let ghost c2 = enc_str(fd0.field_type@);
    let ghost c3 = enc_access(fd0.access_level);
    let ghost c4: Seq<u64> = seq![
        if fd0.is_final {
            1u64
        } else {
            0u64
        },
    ];
    let ghost c5 = enc_opt_value(fd0.default_value);
    proof {
        reveal(field_decodable);
        if has {
            assert(enc_field(fd0) =~= c1 + (c2 + (c3 + (c4 + c5))));
            lemma_window_split(tokens@, pos as int, c1, c2 + (c3 + (c4 + c5)));
            lemma_window_split(tokens@, pos + c1.len(), c2, c3 + (c4 + c5));
            lemma_window_split(tokens@, pos + c1.len() + c2.len(), c3, c4 + c5);
            lemma_window_split(tokens@, pos + c1.len() + c2.len() + c3.len(), c4, c5);
            assert(str_decodable(tokens@, pos as int, fd0.name@)) by {
                reveal(str_decodable);
            }
        }
    }
    let (name, p1) = match read_str(tokens, pos) {
        Some(x) => x,
        None => {
            proof {
                if has {
                    assert(false);
                }
            }
            return None;
        },
    };
    proof {
        if has {
            assert(p1 == pos + c1.len());
            assert(str_decodable(tokens@, p1 as int, fd0.field_type@)) by {
                reveal(str_decodable);
            }
        }
    }
    let (field_type, p2) = match read_str(tokens, p1) {
        Some(x) => x,
        None => {
            proof {
                if has {
                    assert(false);
                }
            }
            return None;
        },
    };
    proof {
        if has {
            assert(p2 == p1 + c2.len());
        }
    }
    let (access_level, p3) = match read_access(tokens, p2) {
        Some(x) => x,
        None => {
            proof {
                if has {
                    assert(false);
                }
            }
            return None;
        },
    };
    proof {
        if has {
            assert(p3 == p2 + 1);
            assert(tokens@[p3 as int] == tokens@.subrange(p3 as int, p3 + 1int)[0]);
            assert(tokens@[p3 as int] == c4[0]);
        }
    }
    if p3 >= tokens.len() {
        proof {
            if has {
                assert(false);
            }
        }
        return None;
    }
    let final_token = tokens[p3];
    if final_token > 1 {
        proof {
            if has {
                assert(false);
            }
        }
        return None;
    }
    let is_final = final_token == 1;
    proof {
        if has {
            assert(opt_value_decodable(tokens@, p3 + 1int, fd0.default_value)) by {
                reveal(opt_value_decodable);
            }
        }
    }
    let (default_value, p4) = match read_opt_value(
        tokens,
        p3 + 1,
        Ghost(
            if has {
                Some(fd0.default_value)
            } else {
                None
            },
        ),
    ) {
        Some(x) => x,
        None => {
            proof {
                if has {
                    assert(false);
                }
            }
            return None;
        },
    };
    let fd = Field { name, field_type, access_level, is_final, default_value };
    proof {
        assert(tokens@.subrange(pos as int, p4 as int) =~= enc_field(fd));
        if has {
            assert(p4 == pos + enc_field(fd0).len());
            assert(enc_field(fd) =~= tokens@.subrange(pos as int, pos + enc_field(fd0).len()));
            assert(enc_field(fd) == enc_field(fd0));
        }
    }
    Some((fd, p4))
}

/// Whether the tokens from a position onward begin with the encoding of
/// the given field-table entries (their count, then the entries), with
/// no key repeated.
#[verifier::opaque]
pub open spec fn fieldmap_decodable(tokens: Seq<u64>, pos: int, es0: Seq<(String, Field)>) -> bool {
    &&& es0.len() <= usize::MAX
    &&& (forall|i: int, j: int| 0 <= i < j < es0.len() ==> es0[i].0@ != es0[j].0@)
    &&& (forall|i: int|
        0 <= i < es0.len() ==> (#[trigger] es0[i]).0@.len() <= usize::MAX && field_fits(es0[i].1))
    &&& pos + 1 + enc_field_entries(es0).len() <= tokens.len()
    &&& tokens.subrange(pos, pos + 1 + enc_field_entries(es0).len()) == seq![es0.len() as u64] + enc_field_entries(es0)
}

/// Reads a field table; duplicate names are rejected, and the encoding
/// of the witnessed entries, when one is given, is accepted and consumed
/// exactly.
#[verifier::rlimit(100)]
#[verifier::spinoff_prover]
fn read_field_map(tokens: &Vec<u64>, pos: usize, w: Ghost<Option<Seq<(String, Field)>>>) -> (r:
    Option<(NameMap<Field>, usize)>)
    ensures
        r matches Some((m, end)) ==> pos <= end <= tokens@.len() && m.wf() && tokens@.subrange(
            pos as int,
            end as int,
        ) == seq![m.entries_seq().len() as u64] + enc_field_entries(m.entries_seq()),
        w@ is Some && fieldmap_decodable(tokens@, pos as int, w@->0) ==> (r matches Some((m, end))
            && end == pos + 1 + enc_field_entries(w@->0).len() && enc_field_entries(m.entries_seq()) == enc_field_entries(w@->0)),
{
    let ghost has = w@ is Some && fieldmap_decodable(tokens@, pos as int, w@->0);
    let ghost es0: Seq<(String, Field)> = if w@ is Some {
        w@->0
    } else {
        Seq::empty()
    };
    let ghost f = |e: (String, Field)| entry_enc_field(e);
    proof {
        reveal(fieldmap_decodable);
        if has {
            assert forall|j: int| 0 <= j < es0.len() implies (#[trigger] f(es0[j])).len()
                >= 1 by {}
            lemma_concat_map_min_len(es0, f);
            lemma_window_split(tokens@, pos as int, seq![es0.len() as u64], enc_field_entries(es0));
            assert(tokens@[pos as int] == tokens@.subrange(pos as int, pos + 1int)[0]);
        }
    }
    if pos >= tokens.len() {
        proof {
            if has {
                assert(false);
            }
        }
        return None;
    }
    let count_token = tokens[pos];
    if count_token > usize::MAX as u64 {
        proof {
            if has {
                assert(false);
            }
        }
        return None;
    }
    let count = count_token as usize;
    if count > tokens.len() - pos - 1 {
        proof {
            if has {
                assert(false);
            }
        }
        return None;
    }
    let mut m: NameMap<Field> = NameMap::new();
    let mut cur = pos + 1;
    let mut i: usize = 0;
    while i < count
        invariant
            tokens@.len() <= usize::MAX,
            pos + 1 <= cur <= tokens@.len(),
            i <= count,
            m.wf(),
            m.entries_seq().len() == i,
            tokens@.subrange(pos + 1int, cur as int) == enc_field_entries(m.entries_seq()),
            f == (|e: (String, Field)| entry_enc_field(e)),
            has == (w@ is Some && fieldmap_decodable(tokens@, pos as int, w@->0)),
            es0 == (if w@ is Some { w@->0 } else { Seq::<(String, Field)>::empty() }),
            has ==> {
                &&& fieldmap_decodable(tokens@, pos as int, es0)
                &&& count == es0.len()
                &&& enc_field_entries(m.entries_seq()) == enc_field_entries(es0.take(i as int))
                &&& cur == pos + 1 + enc_field_entries(es0.take(i as int)).len()
                &&& (forall|j: int|
                    0 <= j < i ==> (#[trigger] m.entries_seq()[j]).0@ == es0[j].0@)
            },
        decreases count - i,
    {
        let ghost ck = enc_str(es0[i as int].0@);
        let ghost cv = enc_field(es0[i as int].1);
        proof {
            reveal(fieldmap_decodable);
            if has {
                lemma_window_split(tokens@, pos as int, seq![es0.len() as u64], enc_field_entries(es0));
                lemma_list_window(tokens@, pos + 1int, es0, f, i as int);
                assert(entry_enc_field(es0[i as int]) =~= ck + cv);
                lemma_window_split(tokens@, cur as int, ck, cv);
                assert(str_decodable(tokens@, cur as int, es0[i as int].0@)) by {
                    reveal(str_decodable);
                }
                assert(field_decodable(tokens@, cur + ck.len(), es0[i as int].1)) by {
                    reveal(field_decodable);
                }
            }
        }
        let (key, p1) = match read_str(tokens, cur) {
            Some(x) => x,
            None => {
                proof {
                    if has {
                        assert(false);
                    }
                }
                return None;
            },
        };
        proof {
            if has {
                assert(p1 == cur + ck.len());
                assert(tokens@.subrange(cur as int, p1 as int) =~= ck);
                assert(enc_str(key@) == enc_str(es0[i as int].0@));
                assert(key@.len() as u64 == enc_str(key@)[0]);
                lemma_enc_str_injective(key@, es0[i as int].0@);
            }
        }
        let (v, p2) = match read_field(tokens, p1, Ghost(
            if has {
                Some(es0[i as int].1)
            } else {
                None
            },
        )) {
            Some(x) => x,
            None => {
                proof {
                    if has {
                        assert(false);
                    }
                }
                return None;
            },
        };
        if m.contains_key(key.as_str()) {
            proof {
                if has {
                    assert forall|j: int|
                        0 <= j < m.entries_seq().len() implies m.entries_seq()[j].0@ != key@ by {
                        assert(m.entries_seq()[j].0@ == es0[j].0@);
                        assert(es0[j].0@ != es0[i as int].0@);
                    }
                    crate::namemap::lemma_view_of_entries(&m);
                    crate::namemap::lemma_map_of_absent(m.entries_seq(), key@);
                    assert(false);
                }
            }
            return None;
        }
        let ghost old_entries = m.entries_seq();
        m.insert(key, v);
        proof {
            assert(m.entries_seq().drop_last() =~= old_entries);
            assert(enc_field_entries(m.entries_seq()) == enc_field_entries(old_entries) + entry_enc_field(
                m.entries_seq().last(),
            ));
            assert(tokens@.subrange(pos + 1int, p2 as int) =~= tokens@.subrange(
                pos + 1int,
                cur as int,
            ) + tokens@.subrange(cur as int, p1 as int) + tokens@.subrange(p1 as int, p2 as int));
            if has {
                assert(p2 == p1 + enc_field(es0[i as int].1).len());
                assert(tokens@.subrange(p1 as int, p2 as int) =~= enc_field(es0[i as int].1));
                assert(enc_field(m.entries_seq().last().1) == enc_field(es0[i as int].1));
                assert(entry_enc_field(m.entries_seq().last()) =~= entry_enc_field(
                    es0[i as int],
                ));
            }
        }
        cur = p2;
        i = i + 1;
    }
    proof {
        assert(tokens@.subrange(pos as int, cur as int) =~= seq![m.entries_seq().len() as u64]
            + enc_field_entries(m.entries_seq()));
        if has {
            assert(es0.take(count as int) =~= es0);
        }
    }
    Some((m, cur))
}

/// Whether the tokens from a position onward begin with the encoding of
/// the given function-table entries (their count, then the entries), with
/// no key repeated.
#[verifier::opaque]
pub open spec fn fnmap_decodable(tokens: Seq<u64>, pos: int, es0: Seq<(String, Function)>) -> bool {
    &&& es0.len() <= usize::MAX
    &&& (forall|i: int, j: int| 0 <= i < j < es0.len() ==> es0[i].0@ != es0[j].0@)
    &&& (forall|i: int|
        0 <= i < es0.len() ==> (#[trigger] es0[i]).0@.len() <= usize::MAX && fn_fits(es0[i].1))
    &&& pos + 1 + enc_fn_entries(es0).len() <= tokens.len()
    &&& tokens.subrange(pos, pos + 1 + enc_fn_entries(es0).len()) == seq![es0.len() as u64] + enc_fn_entries(es0)
}

/// Reads a function table; duplicate names are rejected, and the encoding
/// of the witnessed entries, when one is given, is accepted and consumed
/// exactly.
#[verifier::rlimit(100)]
#[verifier::spinoff_prover]
fn read_fn_map(tokens: &Vec<u64>, pos: usize, w: Ghost<Option<Seq<(String, Function)>>>) -> (r:
    Option<(NameMap<Function>, usize)>)
    ensures
        r matches Some((m, end)) ==> pos <= end <= tokens@.len() && m.wf() && tokens@.subrange(
            pos as int,
            end as int,
        ) == seq![m.entries_seq().len() as u64] + enc_fn_entries(m.entries_seq()),
        w@ is Some && fnmap_decodable(tokens@, pos as int, w@->0) ==> (r matches Some((m, end))
            && end == pos + 1 + enc_fn_entries(w@->0).len() && enc_fn_entries(m.entries_seq()) == enc_fn_entries(w@->0)),
{
    let ghost has = w@ is Some && fnmap_decodable(tokens@, pos as int, w@->0);
    let ghost es0: Seq<(String, Function)> = if w@ is Some {
        w@->0
    } else {
        Seq::empty()
    };
    let ghost f = |e: (String, Function)| entry_enc_fn(e);
    proof {
        reveal(fnmap_decodable);
        if has {
            assert forall|j: int| 0 <= j < es0.len() implies (#[trigger] f(es0[j])).len()
                >= 1 by {}
            lemma_concat_map_min_len(es0, f);
            lemma_window_split(tokens@, pos as int, seq![es0.len() as u64], enc_fn_entries(es0));
            assert(tokens@[pos as int] == tokens@.subrange(pos as int, pos + 1int)[0]);
        }
    }
    if pos >= tokens.len() {
        proof {
            if has {
                assert(false);
            }
        }
        return None;
    }
    let count_token = tokens[pos];
    if count_token > usize::MAX as u64 {
        proof {
            if has {
                assert(false);
            }
        }
        return None;
    }
    let count = count_token as usize;
    if count > tokens.len() - pos - 1 {
        proof {
            if has {
                assert(false);
            }
        }
        return None;
    }
    let mut m: NameMap<Function> = NameMap::new();
    let mut cur = pos + 1;
    let mut i: usize = 0;
    while i < count
        invariant
            tokens@.len() <= usize::MAX,
            pos + 1 <= cur <= tokens@.len(),
            i <= count,
            m.wf(),
            m.entries_seq().len() == i,
            tokens@.subrange(pos + 1int, cur as int) == enc_fn_entries(m.entries_seq()),
            f == (|e: (String, Function)| entry_enc_fn(e)),
            has == (w@ is Some && fnmap_decodable(tokens@, pos as int, w@->0)),
            es0 == (if w@ is Some { w@->0 } else { Seq::<(String, Function)>::empty() }),
            has ==> {
                &&& fnmap_decodable(tokens@, pos as int, es0)
                &&& count == es0.len()
                &&& enc_fn_entries(m.entries_seq()) == enc_fn_entries(es0.take(i as int))
                &&& cur == pos + 1 + enc_fn_entries(es0.take(i as int)).len()
                &&& (forall|j: int|
                    0 <= j < i ==> (#[trigger] m.entries_seq()[j]).0@ == es0[j].0@)
            },
        decreases count - i,
    {
        let ghost ck = enc_str(es0[i as int].0@);
        let ghost cv = enc_fn(es0[i as int].1);
        proof {
            reveal(fnmap_decodable);
            if has {
                lemma_window_split(tokens@, pos as int, seq![es0.len() as u64], enc_fn_entries(es0));
                lemma_list_window(tokens@, pos + 1int, es0, f, i as int);
                assert(entry_enc_fn(es0[i as int]) =~= ck + cv);
                lemma_window_split(tokens@, cur as int, ck, cv);
                assert(str_decodable(tokens@, cur as int, es0[i as int].0@)) by {
                    reveal(str_decodable);
                }
                assert(fn_decodable(tokens@, cur + ck.len(), es0[i as int].1)) by {
                    reveal(fn_decodable);
                }
            }
        }
        let (key, p1) = match read_str(tokens, cur) {
            Some(x) => x,
            None => {
                proof {
                    if has {
                        assert(false);
                    }
                }
                return None;
            },
        };
        proof {
            if has {
                assert(p1 == cur + ck.len());
                assert(tokens@.subrange(cur as int, p1 as int) =~= ck);
                assert(enc_str(key@) == enc_str(es0[i as int].0@));
                assert(key@.len() as u64 == enc_str(key@)[0]);
                lemma_enc_str_injective(key@, es0[i as int].0@);
            }
        }
        let (v, p2) = match read_fn(tokens, p1, Ghost(
            if has {
                Some(es0[i as int].1)
            } else {
                None
            },
        )) {
            Some(x) => x,
            None => {
                proof {
                    if has {
                        assert(false);
                    }
                }
                return None;
            },
        };
        if m.contains_key(key.as_str()) {
            proof {
                if has {
                    assert forall|j: int|
                        0 <= j < m.entries_seq().len() implies m.entries_seq()[j].0@ != key@ by {
                        assert(m.entries_seq()[j].0@ == es0[j].0@);
                        assert(es0[j].0@ != es0[i as int].0@);
                    }
                    crate::namemap::lemma_view_of_entries(&m);
                    crate::namemap::lemma_map_of_absent(m.entries_seq(), key@);
                    assert(false);
                }
            }
            return None;
        }
        let ghost old_entries = m.entries_seq();
        m.insert(key, v);
        proof {
            assert(m.entries_seq().drop_last() =~= old_entries);
            assert(enc_fn_entries(m.entries_seq()) == enc_fn_entries(old_entries) + entry_enc_fn(
                m.entries_seq().last(),
            ));
            assert(tokens@.subrange(pos + 1int, p2 as int) =~= tokens@.subrange(
                pos + 1int,
                cur as int,
            ) + tokens@.subrange(cur as int, p1 as int) + tokens@.subrange(p1 as int, p2 as int));
            if has {
                assert(p2 == p1 + enc_fn(es0[i as int].1).len());
                assert(tokens@.subrange(p1 as int, p2 as int) =~= enc_fn(es0[i as int].1));
                assert(enc_fn(m.entries_seq().last().1) == enc_fn(es0[i as int].1));
                assert(entry_enc_fn(m.entries_seq().last()) =~= entry_enc_fn(
                    es0[i as int],
                ));
            }
        }
        cur = p2;
        i = i + 1;
    }
    proof {
        assert(tokens@.subrange(pos as int, cur as int) =~= seq![m.entries_seq().len() as u64]
            + enc_fn_entries(m.entries_seq()));
        if has {
            assert(es0.take(count as int) =~= es0);
        }
    }
    Some((m, cur))
}

/// Whether the tokens from a position onward begin with the encoding of
/// the given well-formed class.
#[verifier::opaque]
pub open spec fn class_decodable(tokens: Seq<u64>, pos: int, c0: Class) -> bool {
    class_fits(c0) && c0.wf() && pos + enc_class(c0).len() <= tokens.len() && tokens.subrange(
        pos,
        pos + enc_class(c0).len(),
    ) == enc_class(c0)
}

/// Unpacks the window of a decodable class into the windows of its parts.
#[verifier::rlimit(100)]
#[verifier::spinoff_prover]
proof fn lemma_class_windows(tokens: Seq<u64>, pos: int, c0: Class)
    requires
        0 <= pos,
        class_decodable(tokens, pos, c0),
    ensures
        ({
            let o1 = pos + enc_str(c0.name@).len();
            let o2 = o1 + enc_opt_str(c0.parent).len();
            let o3 = o2 + 1 + enc_field_entries(c0.fields.entries_seq()).len();
            let o4 = o3 + 1 + enc_fn_entries(c0.methods.entries_seq()).len();
            let o5 = o4 + enc_opt_fn(c0.constructor).len();
            &&& pos + enc_class(c0).len() == o5 + 1
            &&& o5 + 1 <= tokens.len()
            &&& str_decodable(tokens, pos, c0.name@)
            &&& opt_str_decodable(tokens, o1, c0.parent)
            &&& fieldmap_decodable(tokens, o2, c0.fields.entries_seq())
            &&& fnmap_decodable(tokens, o3, c0.methods.entries_seq())
            &&& tokens[o4] == (if c0.constructor is Some {
                1u64
            } else {
                0u64
            })
            &&& (c0.constructor matches Some(f0) ==> o5 == o4 + 1 + enc_fn(f0).len()
                && fn_decodable(tokens, o4 + 1, f0))
            &&& tokens.subrange(o5, o5 + 1) == enc_access(c0.access_level)
            &&& tokens.subrange(pos, pos + enc_class(c0).len()) == enc_class(c0)
        }),
{
    reveal(class_decodable);
    reveal(str_decodable);
    reveal(opt_str_decodable);
    reveal(fieldmap_decodable);
    reveal(fnmap_decodable);
    reveal(fn_decodable);
    crate::namemap::lemma_wf_entries_distinct(&c0.fields);
    crate::namemap::lemma_wf_entries_distinct(&c0.methods);
    let k1 = enc_str(c0.name@);
    let k2 = enc_opt_str(c0.parent);
    let k3 = seq![c0.fields.entries_seq().len() as u64] + enc_field_entries(
        c0.fields.entries_seq(),
    );
    let k4 = seq![c0.methods.entries_seq().len() as u64] + enc_fn_entries(
        c0.methods.entries_seq(),
    );
    let k5 = enc_opt_fn(c0.constructor);
    let k6 = enc_access(c0.access_level);
    assert(enc_class(c0) =~= k1 + (k2 + (k3 + (k4 + (k5 + k6)))));
    lemma_window_split(tokens, pos, k1, k2 + (k3 + (k4 + (k5 + k6))));
    lemma_window_split(tokens, pos + k1.len(), k2, k3 + (k4 + (k5 + k6)));
    lemma_window_split(tokens, pos + k1.len() + k2.len(), k3, k4 + (k5 + k6));
    lemma_window_split(tokens, pos + k1.len() + k2.len() + k3.len(), k4, k5 + k6);
    lemma_window_split(tokens, pos + k1.len() + k2.len() + k3.len() + k4.len(), k5, k6);
    let o4 = pos + k1.len() + k2.len() + k3.len() + k4.len();
    assert(tokens[o4] == tokens.subrange(o4, o4 + k5.len())[0]);
    if c0.constructor is Some {
        let f0 = c0.constructor->0;
        assert(k5 =~= seq![1u64] + enc_fn(f0));
        lemma_window_split(tokens, o4, seq![1u64], enc_fn(f0));
    }
}

/// Assembles the windows of a class's parts into the window of the class.
#[verifier::rlimit(100)]
#[verifier::spinoff_prover]
proof fn lemma_class_assemble(
    tokens: Seq<u64>,
    c: Class,
    pos: int,
    p1: int,
    p2: int,
    p3: int,
    p4: int,
    p5: int,
    p6: int,
)
    requires
        0 <= pos <= p1 <= p2 <= p3 <= p4 <= p5 <= p6 <= tokens.len(),
        tokens.subrange(pos, p1) == enc_str(c.name@),
        tokens.subrange(p1, p2) == enc_opt_str(c.parent),
        tokens.subrange(p2, p3) == seq![c.fields.entries_seq().len() as u64] + enc_field_entries(
            c.fields.entries_seq(),
        ),
        tokens.subrange(p3, p4) == seq![c.methods.entries_seq().len() as u64] + enc_fn_entries(
            c.methods.entries_seq(),
        ),
        tokens.subrange(p4, p5) == enc_opt_fn(c.constructor),
        tokens.subrange(p5, p6) == enc_access(c.access_level),
    ensures
        tokens.subrange(pos, p6) == enc_class(c),
{
    assert(tokens.subrange(pos, p6) =~= tokens.subrange(pos, p1) + tokens.subrange(p1, p2)
        + tokens.subrange(p2, p3) + tokens.subrange(p3, p4) + tokens.subrange(p4, p5)
        + tokens.subrange(p5, p6));
    assert(tokens.subrange(pos, p6) =~= enc_class(c));
}

/// Reads a class; the encoding of the witnessed class, when one is
/// given, is accepted and consumed exactly.
#[verifier::rlimit(100)]
#[verifier::spinoff_prover]
fn read_class(tokens: &Vec<u64>, pos: usize, w: Ghost<Option<Class>>) -> (r: Option<
    (Class, usize),
>)
    ensures
        r matches Some((c, end)) ==> pos <= end <= tokens@.len() && c.wf() && tokens@.subrange(
            pos as int,
            end as int,
        ) == enc_class(c),
        w@ is Some && class_decodable(tokens@, pos as int, w@->0) ==> (r matches Some((c, end))
            && end == pos + enc_class(w@->0).len() && enc_class(c) == enc_class(w@->0)),
{
    let ghost has = w@ is Some && class_decodable(tokens@, pos as int, w@->0);
    let ghost c0: Class = if w@ is Some {
        w@->0
    } else {
        vstd::pervasive::arbitrary()
    };
    let ghost o1 = pos + enc_str(c0.name@).len();
    let ghost o2 = o1 + enc_opt_str(c0.parent).len();
    let ghost o3 = o2 + 1 + enc_field_entries(c0.fields.entries_seq()).len();
    let ghost o4 = o3 + 1 + enc_fn_entries(c0.methods.entries_seq()).len();
    let ghost o5 = o4 + enc_opt_fn(c0.constructor).len();
    proof {
        if has {
            lemma_class_windows(tokens@, pos as int, c0);
        }
    }
    let (name, p1) = match read_str(tokens, pos) {
        Some(x) => x,
        None => {
            proof {
                if has {
                    assert(false);
                }
            }
            return None;
        },
    };
    proof {
        if has {
            assert(p1 == o1);
        }
    }
    let (parent, p2) = match read_opt_str(tokens, p1) {
        Some(x) => x,
        None => {
            proof {
                if has {
                    assert(false);
                }
            }
            return None;
        },
    };
    proof {
        if has {
            assert(p2 == o2);
        }
    }
    let (fields, p3) = match read_field_map(
        tokens,
        p2,
        Ghost(
            if has {
                Some(c0.fields.entries_seq())
            } else {
                None
            },
        ),
    ) {
        Some(x) => x,
        None => {
            proof {
                if has {
                    assert(false);
                }
            }
            return None;
        },
    };
    proof {
        if has {
            assert(p3 == o3);
        }
    }
    let (methods, p4) = match read_fn_map(
        tokens,
        p3,
        Ghost(
            if has {
                Some(c0.methods.entries_seq())
            } else {
                None
            },
        ),
    ) {
        Some(x) => x,
        None => {
            proof {
                if has {
                    assert(false);
                }
            }
            return None;
        },
    };
    proof {
        if has {
            assert(p4 == o4);
        }
    }
    if p4 >= tokens.len() {
        proof {
            if has {
                assert(false);
            }
        }
        return None;
    }
    let ctor_tag = tokens[p4];
    let (constructor, p5) = if ctor_tag == 0 {
        proof {
            if has {
                assert(c0.constructor is None);
            }
        }
        (None, p4 + 1)
    } else if ctor_tag == 1 {
        match read_fn(
            tokens,
            p4 + 1,
            Ghost(
                if has && c0.constructor is Some {
                    Some(c0.constructor->0)
                } else {
                    None
                },
            ),
        ) {
            Some((f, end)) => (Some(f), end),
            None => {
                proof {
                    if has {
                        assert(c0.constructor is Some);
                        assert(false);
                    }
                }
                return None;
            },
        }
    } else {
        proof {
            if has {
                assert(false);
            }
        }
        return None;
    };
    proof {
        if has {
            assert(p5 == o5);
            assert(tokens@.subrange(p5 as int, p5 + 1int) == enc_access(c0.access_level));
        }
    }
    let (access_level, p6) = match read_access(tokens, p5) {
        Some(x) => x,
        None => {
            proof {
                if has {
                    assert(false);
                }
            }
            return None;
        },
    };
    let c = Class { name, parent, fields, methods, constructor, access_level };
    proof {
        assert(tokens@.subrange(p4 as int, p5 as int) =~= enc_opt_fn(c.constructor));
        lemma_class_assemble(
            tokens@,
            c,
            pos as int,
            p1 as int,
            p2 as int,
            p3 as int,
            p4 as int,
            p5 as int,
            p6 as int,
        );
        if has {
            assert(p6 == pos + enc_class(c0).len());
            assert(enc_class(c) == tokens@.subrange(pos as int, pos + enc_class(c0).len()));
            assert(enc_class(c) == enc_class(c0));
        }
    }
    Some((c, p6))
}

/// Whether the tokens from a position onward begin with the encoding of
/// the given class-table entries (their count, then the entries), with
/// no key repeated.
#[verifier::opaque]
pub open spec fn classmap_decodable(tokens: Seq<u64>, pos: int, es0: Seq<(String, Class)>) -> bool {
    &&& es0.len() <= usize::MAX
    &&& (forall|i: int, j: int| 0 <= i < j < es0.len() ==> es0[i].0@ != es0[j].0@)
    &&& (forall|i: int|
        0 <= i < es0.len() ==> (#[trigger] es0[i]).0@.len() <= usize::MAX && class_fits(es0[i].1)
            && es0[i].1.wf())
    &&& pos + 1 + enc_class_entries(es0).len() <= tokens.len()
    &&& tokens.subrange(pos, pos + 1 + enc_class_entries(es0).len()) == seq![es0.len() as u64] + enc_class_entries(es0)
}

/// Reads a class table; duplicate names are rejected, and the encoding
/// of the witnessed entries, when one is given, is accepted and consumed
/// exactly.
#[verifier::rlimit(100)]
#[verifier::spinoff_prover]
fn read_class_map(tokens: &Vec<u64>, pos: usize, w: Ghost<Option<Seq<(String, Class)>>>) -> (r:
    Option<(NameMap<Class>, usize)>)
    ensures
        r matches Some((m, end)) ==> pos <= end <= tokens@.len() && m.wf() && (forall|j: int|
            0 <= j < m.entries_seq().len() ==> (#[trigger] m.entries_seq()[j]).1.wf()) && tokens@.subrange(
            pos as int,
            end as int,
        ) == seq![m.entries_seq().len() as u64] + enc_class_entries(m.entries_seq()),
        w@ is Some && classmap_decodable(tokens@, pos as int, w@->0) ==> (r matches Some((m, end))
            && end == pos + 1 + enc_class_entries(w@->0).len() && enc_class_entries(m.entries_seq()) == enc_class_entries(w@->0)),
{
    let ghost has = w@ is Some && classmap_decodable(tokens@, pos as int, w@->0);
    let ghost es0: Seq<(String, Class)> = if w@ is Some {
        w@->0
    } else {
        Seq::empty()
    };
    let ghost f = |e: (String, Class)| entry_enc_class(e);
    proof {
        reveal(classmap_decodable);
        if has {
            assert forall|j: int| 0 <= j < es0.len() implies (#[trigger] f(es0[j])).len()
                >= 1 by {}
            lemma_concat_map_min_len(es0, f);
            lemma_window_split(tokens@, pos as int, seq![es0.len() as u64], enc_class_entries(es0));
            assert(tokens@[pos as int] == tokens@.subrange(pos as int, pos + 1int)[0]);
        }
    }
    if pos >= tokens.len() {
        proof {
            if has {
                assert(false);
            }
        }
        return None;
    }
    let count_token = tokens[pos];
    if count_token > usize::MAX as u64 {
        proof {
            if has {
                assert(false);
            }
        }
        return None;
    }
    let count = count_token as usize;
    if count > tokens.len() - pos - 1 {
        proof {
            if has {
                assert(false);
            }
        }
        return None;
    }
    let mut m: NameMap<Class> = NameMap::new();
    let mut cur = pos + 1;
    let mut i: usize = 0;
    while i < count
        invariant
            tokens@.len() <= usize::MAX,
            pos + 1 <= cur <= tokens@.len(),
            i <= count,
            m.wf(),
            m.entries_seq().len() == i,
            forall|j: int| 0 <= j < i ==> (#[trigger] m.entries_seq()[j]).1.wf(),
            tokens@.subrange(pos + 1int, cur as int) == enc_class_entries(m.entries_seq()),
            f == (|e: (String, Class)| entry_enc_class(e)),
            has == (w@ is Some && classmap_decodable(tokens@, pos as int, w@->0)),
            es0 == (if w@ is Some { w@->0 } else { Seq::<(String, Class)>::empty() }),
            has ==> {
                &&& classmap_decodable(tokens@, pos as int, es0)
                &&& count == es0.len()
                &&& enc_class_entries(m.entries_seq()) == enc_class_entries(es0.take(i as int))
                &&& cur == pos + 1 + enc_class_entries(es0.take(i as int)).len()
                &&& (forall|j: int|
                    0 <= j < i ==> (#[trigger] m.entries_seq()[j]).0@ == es0[j].0@)
            },
        decreases count - i,
    {
        let ghost ck = enc_str(es0[i as int].0@);
        let ghost cv = enc_class(es0[i as int].1);
        proof {
            reveal(classmap_decodable);
            if has {
                lemma_window_split(tokens@, pos as int, seq![es0.len() as u64], enc_class_entries(es0));
                lemma_list_window(tokens@, pos + 1int, es0, f, i as int);
                assert(entry_enc_class(es0[i as int]) =~= ck + cv);
                lemma_window_split(tokens@, cur as int, ck, cv);
                assert(str_decodable(tokens@, cur as int, es0[i as int].0@)) by {
                    reveal(str_decodable);
                }
                assert(class_decodable(tokens@, cur + ck.len(), es0[i as int].1)) by {
                    reveal(class_decodable);
                }
            }
        }
        let (key, p1) = match read_str(tokens, cur) {
            Some(x) => x,
            None => {
                proof {
                    if has {
                        assert(false);
                    }
                }
                return None;
            },
        };
        proof {
            if has {
                assert(p1 == cur + ck.len());
                assert(tokens@.subrange(cur as int, p1 as int) =~= ck);
                assert(enc_str(key@) == enc_str(es0[i as int].0@));
                assert(key@.len() as u64 == enc_str(key@)[0]);
                lemma_enc_str_injective(key@, es0[i as int].0@);
            }
        }
        let (v, p2) = match read_class(tokens, p1, Ghost(
            if has {
                Some(es0[i as int].1)
            } else {
                None
            },
        )) {
            Some(x) => x,
            None => {
                proof {
                    if has {
                        assert(false);
                    }
                }
                return None;
            },
        };
        if m.contains_key(key.as_str()) {
            proof {
                if has {
                    assert forall|j: int|
                        0 <= j < m.entries_seq().len() implies m.entries_seq()[j].0@ != key@ by {
                        assert(m.entries_seq()[j].0@ == es0[j].0@);
                        assert(es0[j].0@ != es0[i as int].0@);
                    }
                    crate::namemap::lemma_view_of_entries(&m);
                    crate::namemap::lemma_map_of_absent(m.entries_seq(), key@);
                    assert(false);
                }
            }
            return None;
        }
        let ghost old_entries = m.entries_seq();
        m.insert(key, v);
        proof {
            assert(m.entries_seq().drop_last() =~= old_entries);
            assert(enc_class_entries(m.entries_seq()) == enc_class_entries(old_entries) + entry_enc_class(
                m.entries_seq().last(),
            ));
            assert(tokens@.subrange(pos + 1int, p2 as int) =~= tokens@.subrange(
                pos + 1int,
                cur as int,
            ) + tokens@.subrange(cur as int, p1 as int) + tokens@.subrange(p1 as int, p2 as int));
            assert forall|j: int| 0 <= j < m.entries_seq().len() implies (
            #[trigger] m.entries_seq()[j]).1.wf() by {
                if j < old_entries.len() {
                    assert(m.entries_seq()[j] == old_entries[j]);
                }
            }
            if has {
                assert(p2 == p1 + enc_class(es0[i as int].1).len());
                assert(tokens@.subrange(p1 as int, p2 as int) =~= enc_class(es0[i as int].1));
                assert(enc_class(m.entries_seq().last().1) == enc_class(es0[i as int].1));
                assert(entry_enc_class(m.entries_seq().last()) =~= entry_enc_class(
                    es0[i as int],
                ));
            }
        }
        cur = p2;
        i = i + 1;
    }
    proof {
        assert(tokens@.subrange(pos as int, cur as int) =~= seq![m.entries_seq().len() as u64]
            + enc_class_entries(m.entries_seq()));
        if has {
            assert(es0.take(count as int) =~= es0);
        }
    }
    Some((m, cur))
}

/// Whether the tokens from a position onward begin with the encoding of
/// the given globals-table entries (their count, then the entries), with
/// no key repeated.
#[verifier::opaque]
pub open spec fn valuemap_decodable(tokens: Seq<u64>, pos: int, es0: Seq<(String, Value)>) -> bool {
    &&& es0.len() <= usize::MAX
    &&& (forall|i: int, j: int| 0 <= i < j < es0.len() ==> es0[i].0@ != es0[j].0@)
    &&& (forall|i: int|
        0 <= i < es0.len() ==> (#[trigger] es0[i]).0@.len() <= usize::MAX && value_fits(es0[i].1))
    &&& pos + 1 + enc_value_entries(es0).len() <= tokens.len()
    &&& tokens.subrange(pos, pos + 1 + enc_value_entries(es0).len()) == seq![es0.len() as u64] + enc_value_entries(es0)
}

/// Reads a globals table; duplicate names are rejected, and the encoding
/// of the witnessed entries, when one is given, is accepted and consumed
/// exactly.
#[verifier::rlimit(100)]
#[verifier::spinoff_prover]
fn read_value_map(tokens: &Vec<u64>, pos: usize, w: Ghost<Option<Seq<(String, Value)>>>) -> (r:
    Option<(NameMap<Value>, usize)>)
    ensures
        r matches Some((m, end)) ==> pos <= end <= tokens@.len() && m.wf() && tokens@.subrange(
            pos as int,
            end as int,
        ) == seq![m.entries_seq().len() as u64] + enc_value_entries(m.entries_seq()),
        w@ is Some && valuemap_decodable(tokens@, pos as int, w@->0) ==> (r matches Some((m, end))
            && end == pos + 1 + enc_value_entries(w@->0).len() && enc_value_entries(m.entries_seq()) == enc_value_entries(w@->0)),
{
    let ghost has = w@ is Some && valuemap_decodable(tokens@, pos as int, w@->0);
    let ghost es0: Seq<(String, Value)> = if w@ is Some {
        w@->0
    } else {
        Seq::empty()
    };
    let ghost f = |e: (String, Value)| entry_enc_value(e);
    proof {
        reveal(valuemap_decodable);
        if has {
            assert forall|j: int| 0 <= j < es0.len() implies (#[trigger] f(es0[j])).len()
                >= 1 by {}
            lemma_concat_map_min_len(es0, f);
            lemma_window_split(tokens@, pos as int, seq![es0.len() as u64], enc_value_entries(es0));
            assert(tokens@[pos as int] == tokens@.subrange(pos as int, pos + 1int)[0]);
        }
    }
    if pos >= tokens.len() {
        proof {
            if has {
                assert(false);
            }
        }
        return None;
    }
    let count_token = tokens[pos];
    if count_token > usize::MAX as u64 {
        proof {
            if has {
                assert(false);
            }
        }
        return None;
    }
    let count = count_token as usize;
    if count > tokens.len() - pos - 1 {
        proof {
            if has {
                assert(false);
            }
        }
        return None;
    }
    let mut m: NameMap<Value> = NameMap::new();
    let mut cur = pos + 1;
    let mut i: usize = 0;
    while i < count
        invariant
            tokens@.len() <= usize::MAX,
            pos + 1 <= cur <= tokens@.len(),
            i <= count,
            m.wf(),
            m.entries_seq().len() == i,
            tokens@.subrange(pos + 1int, cur as int) == enc_value_entries(m.entries_seq()),
            f == (|e: (String, Value)| entry_enc_value(e)),
            has == (w@ is Some && valuemap_decodable(tokens@, pos as int, w@->0)),
            es0 == (if w@ is Some { w@->0 } else { Seq::<(String, Value)>::empty() }),
            has ==> {
                &&& valuemap_decodable(tokens@, pos as int, es0)
                &&& count == es0.len()
                &&& enc_value_entries(m.entries_seq()) == enc_value_entries(es0.take(i as int))
                &&& cur == pos + 1 + enc_value_entries(es0.take(i as int)).len()
                &&& (forall|j: int|
                    0 <= j < i ==> (#[trigger] m.entries_seq()[j]).0@ == es0[j].0@)
            },
        decreases count - i,
    {
        let ghost ck = enc_str(es0[i as int].0@);
        let ghost cv = enc_value(es0[i as int].1);
        proof {
            reveal(valuemap_decodable);
            if has {
                lemma_window_split(tokens@, pos as int, seq![es0.len() as u64], enc_value_entries(es0));
                lemma_list_window(tokens@, pos + 1int, es0, f, i as int);
                assert(entry_enc_value(es0[i as int]) =~= ck + cv);
                lemma_window_split(tokens@, cur as int, ck, cv);
                assert(str_decodable(tokens@, cur as int, es0[i as int].0@)) by {
                    reveal(str_decodable);
                }
                assert(value_decodable(tokens@, cur + ck.len(), es0[i as int].1)) by {
                    reveal(value_decodable);
                }
            }
        }
        let (key, p1) = match read_str(tokens, cur) {
            Some(x) => x,
            None => {
                proof {
                    if has {
                        assert(false);
                    }
                }
                return None;
            },
        };
        proof {
            if has {
                assert(p1 == cur + ck.len());
                assert(tokens@.subrange(cur as int, p1 as int) =~= ck);
                assert(enc_str(key@) == enc_str(es0[i as int].0@));
                assert(key@.len() as u64 == enc_str(key@)[0]);
                lemma_enc_str_injective(key@, es0[i as int].0@);
            }
        }
        let (v, p2) = match read_value(tokens, p1) {
            Some(x) => x,
            None => {
                proof {
                    if has {
                        assert(false);
                    }
                }
                return None;
            },
        };
        if m.contains_key(key.as_str()) {
            proof {
                if has {
                    assert forall|j: int|
                        0 <= j < m.entries_seq().len() implies m.entries_seq()[j].0@ != key@ by {
                        assert(m.entries_seq()[j].0@ == es0[j].0@);
                        assert(es0[j].0@ != es0[i as int].0@);
                    }
                    crate::namemap::lemma_view_of_entries(&m);
                    crate::namemap::lemma_map_of_absent(m.entries_seq(), key@);
                    assert(false);
                }
            }
            return None;
        }
        let ghost old_entries = m.entries_seq();
        m.insert(key, v);
        proof {
            assert(m.entries_seq().drop_last() =~= old_entries);
            assert(enc_value_entries(m.entries_seq()) == enc_value_entries(old_entries) + entry_enc_value(
                m.entries_seq().last(),
            ));
            assert(tokens@.subrange(pos + 1int, p2 as int) =~= tokens@.subrange(
                pos + 1int,
                cur as int,
            ) + tokens@.subrange(cur as int, p1 as int) + tokens@.subrange(p1 as int, p2 as int));
            if has {
                assert(p2 == p1 + enc_value(es0[i as int].1).len());
                assert(tokens@.subrange(p1 as int, p2 as int) =~= enc_value(es0[i as int].1));
                assert(enc_value(m.entries_seq().last().1) == enc_value(es0[i as int].1));
                assert(entry_enc_value(m.entries_seq().last()) =~= entry_enc_value(
                    es0[i as int],
                ));
            }
        }
        cur = p2;
        i = i + 1;
    }
    proof {
        assert(tokens@.subrange(pos as int, cur as int) =~= seq![m.entries_seq().len() as u64]
            + enc_value_entries(m.entries_seq()));
        if has {
            assert(es0.take(count as int) =~= es0);
        }
    }
    Some((m, cur))
}

/// Whether the tokens from a position onward begin with the encoding of
/// the given constant pool (its length, then the values).
#[verifier::opaque]
pub open spec fn values_decodable(tokens: Seq<u64>, pos: int, vs0: Seq<Value>) -> bool {
    &&& vs0.len() <= usize::MAX
    &&& (forall|i: int| 0 <= i < vs0.len() ==> value_fits(#[trigger] vs0[i]))
    &&& pos + 1 + enc_value_list(vs0).len() <= tokens.len()
    &&& tokens.subrange(pos, pos + 1 + enc_value_list(vs0).len()) == seq![vs0.len() as u64]
        + enc_value_list(vs0)
}

/// Reads a constant pool with its length; the encoding of the witnessed
/// pool, when one is given, is accepted and consumed exactly.
#[verifier::rlimit(100)]
#[verifier::spinoff_prover]
fn read_values(tokens: &Vec<u64>, pos: usize, w: Ghost<Option<Seq<Value>>>) -> (r: Option<
    (Vec<Value>, usize),
>)
    ensures
        r matches Some((values, end)) ==> pos <= end <= tokens@.len() && tokens@.subrange(
            pos as int,
            end as int,
        ) == seq![values@.len() as u64] + enc_value_list(values@),
        w@ is Some && values_decodable(tokens@, pos as int, w@->0) ==> (r matches Some(
            (values, end),
        ) && end == pos + 1 + enc_value_list(w@->0).len() && enc_value_list(values@)
            == enc_value_list(w@->0)),
{
    let ghost has = w@ is Some && values_decodable(tokens@, pos as int, w@->0);
    let ghost vs0: Seq<Value> = if w@ is Some {
        w@->0
    } else {
        Seq::empty()
    };
    let ghost f = |v: Value| enc_value(v);
    proof {
        reveal(values_decodable);
        if has {
            assert forall|j: int| 0 <= j < vs0.len() implies (#[trigger] f(vs0[j])).len()
                >= 1 by {}
            lemma_concat_map_min_len(vs0, f);
            lemma_window_split(
                tokens@,
                pos as int,
                seq![vs0.len() as u64],
                enc_value_list(vs0),
            );
            assert(tokens@[pos as int] == tokens@.subrange(pos as int, pos + 1int)[0]);
        }
    }
    if pos >= tokens.len() {
        proof {
            if has {
                assert(false);
            }
        }
        return None;
    }
    let count_token = tokens[pos];
    if count_token > usize::MAX as u64 {
        proof {
            if has {
                assert(false);
            }
        }
        return None;
    }
    let count = count_token as usize;
    if count > tokens.len() - pos - 1 {
        proof {
            if has {
                assert(false);
            }
        }
        return None;
    }
    let mut values: Vec<Value> = Vec::new();
    let mut cur = pos + 1;
    let mut i: usize = 0;
    while i < count
        invariant
            tokens@.len() <= usize::MAX,
            pos + 1 <= cur <= tokens@.len(),
            i <= count,
            values@.len() == i,
            tokens@.subrange(pos + 1int, cur as int) == enc_value_list(values@),
            f == (|v: Value| enc_value(v)),
            has == (w@ is Some && values_decodable(tokens@, pos as int, w@->0)),
            vs0 == (if w@ is Some { w@->0 } else { Seq::<Value>::empty() }),
            has ==> {
                &&& values_decodable(tokens@, pos as int, vs0)
                &&& count == vs0.len()
                &&& enc_value_list(values@) == enc_value_list(vs0.take(i as int))
                &&& cur == pos + 1 + enc_value_list(vs0.take(i as int)).len()
            },
        decreases count - i,
    {
        proof {
            reveal(values_decodable);
            if has {
                lemma_window_split(
                    tokens@,
                    pos as int,
                    seq![vs0.len() as u64],
                    enc_value_list(vs0),
                );
                lemma_list_window(tokens@, pos + 1int, vs0, f, i as int);
                assert(value_decodable(tokens@, cur as int, vs0[i as int])) by {
                    reveal(value_decodable);
                }
            }
        }
        let (v, next) = match read_value(tokens, cur) {
            Some(x) => x,
            None => {
                proof {
                    if has {
                        assert(false);
                    }
                }
                return None;
            },
        };
        let ghost before = values@;
        values.push(v);
        proof {
            assert(values@.drop_last() =~= before);
            assert(enc_value_list(values@) == enc_value_list(before) + enc_value(
                values@.last(),
            ));
            assert(tokens@.subrange(pos + 1int, next as int) =~= tokens@.subrange(
                pos + 1int,
                cur as int,
            ) + tokens@.subrange(cur as int, next as int));
            if has {
                assert(next == cur + enc_value(vs0[i as int]).len());
                assert(tokens@.subrange(cur as int, next as int) =~= enc_value(vs0[i as int]));
                assert(enc_value(values@.last()) == enc_value(vs0[i as int]));
            }
        }
        cur = next;
        i = i + 1;
    }
    proof {
        assert(tokens@.subrange(pos as int, cur as int) =~= seq![values@.len() as u64]
            + enc_value_list(values@));
        if has {
            assert(vs0.take(count as int) =~= vs0);
        }
    }
    Some((values, cur))
}

/// Unpacks the token form of a decodable program into the windows of
/// its parts.
#[verifier::rlimit(100)]
#[verifier::spinoff_prover]
proof fn lemma_program_windows(tokens: Seq<u64>, p0: BytecodeProgram)
    requires
        p0.wf(),
        prog_fits(p0),
        tokens == enc_program(p0),
    ensures
        ({
            let o2 = 2int + enc_str(p0.name@).len();
            let o3 = o2 + 1 + enc_value_list(p0.constants@).len();
            let o4 = o3 + 1 + enc_fn_entries(p0.functions.entries_seq()).len();
            let o5 = o4 + 1 + enc_class_entries(p0.classes.entries_seq()).len();
            let o6 = o5 + enc_str(p0.main_function@).len();
            &&& tokens.len() == o6 + 1 + enc_value_entries(p0.globals.entries_seq()).len()
            &&& tokens.len() >= 2
            &&& tokens[0] == ARTIFACT_MAGIC
            &&& tokens[1] == p0.version as u64
            &&& str_decodable(tokens, 2, p0.name@)
            &&& values_decodable(tokens, o2, p0.constants@)
            &&& fnmap_decodable(tokens, o3, p0.functions.entries_seq())
            &&& classmap_decodable(tokens, o4, p0.classes.entries_seq())
            &&& str_decodable(tokens, o5, p0.main_function@)
            &&& valuemap_decodable(tokens, o6, p0.globals.entries_seq())
        }),
{
    reveal(str_decodable);
    reveal(values_decodable);
    reveal(fnmap_decodable);
    reveal(classmap_decodable);
    reveal(valuemap_decodable);
    crate::namemap::lemma_wf_entries_distinct(&p0.functions);
    crate::namemap::lemma_wf_entries_distinct(&p0.classes);
    crate::namemap::lemma_wf_entries_distinct(&p0.globals);
    let h1 = seq![ARTIFACT_MAGIC, p0.version as u64];
    let h2 = enc_str(p0.name@);
    let h3 = seq![p0.constants@.len() as u64] + enc_value_list(p0.constants@);
    let h4 = seq![p0.functions.entries_seq().len() as u64] + enc_fn_entries(
        p0.functions.entries_seq(),
    );
    let h5 = seq![p0.classes.entries_seq().len() as u64] + enc_class_entries(
        p0.classes.entries_seq(),
    );
    let h6 = enc_str(p0.main_function@);
    let h7 = seq![p0.globals.entries_seq().len() as u64] + enc_value_entries(
        p0.globals.entries_seq(),
    );
    assert(enc_program(p0) =~= h1 + (h2 + (h3 + (h4 + (h5 + (h6 + h7))))));
    assert(tokens.subrange(0, tokens.len() as int) =~= tokens);
    lemma_window_split(tokens, 0, h1, h2 + (h3 + (h4 + (h5 + (h6 + h7)))));
    lemma_window_split(tokens, 2int, h2, h3 + (h4 + (h5 + (h6 + h7))));
    lemma_window_split(tokens, 2int + h2.len(), h3, h4 + (h5 + (h6 + h7)));
    lemma_window_split(tokens, 2int + h2.len() + h3.len(), h4, h5 + (h6 + h7));
    lemma_window_split(tokens, 2int + h2.len() + h3.len() + h4.len(), h5, h6 + h7);
    lemma_window_split(tokens, 2int + h2.len() + h3.len() + h4.len() + h5.len(), h6, h7);
    assert(tokens[0] == tokens.subrange(0, 2)[0]);
    assert(tokens[1] == tokens.subrange(0, 2)[1]);
}

/// Assembles the windows of a program's parts into the program's whole
/// token form.
#[verifier::rlimit(100)]
#[verifier::spinoff_prover]
proof fn lemma_program_assemble(
    tokens: Seq<u64>,
    p: BytecodeProgram,
    p1: int,
    p2: int,
    p3: int,
    p4: int,
    p5: int,
    p6: int,
)
    requires
        2 <= p1 <= p2 <= p3 <= p4 <= p5 <= p6 == tokens.len(),
        tokens[0] == ARTIFACT_MAGIC,
        tokens[1] == p.version as u64,
        tokens.subrange(2, p1) == enc_str(p.name@),
        tokens.subrange(p1, p2) == seq![p.constants@.len() as u64] + enc_value_list(p.constants@),
        tokens.subrange(p2, p3) == seq![p.functions.entries_seq().len() as u64] + enc_fn_entries(
            p.functions.entries_seq(),
        ),
        tokens.subrange(p3, p4) == seq![p.classes.entries_seq().len() as u64] + enc_class_entries(
            p.classes.entries_seq(),
        ),
        tokens.subrange(p4, p5) == enc_str(p.main_function@),
        tokens.subrange(p5, p6) == seq![p.globals.entries_seq().len() as u64] + enc_value_entries(
            p.globals.entries_seq(),
        ),
    ensures
        tokens == enc_program(p),
{
    assert(tokens =~= tokens.subrange(0, 2) + tokens.subrange(2, p1) + tokens.subrange(p1, p2)
        + tokens.subrange(p2, p3) + tokens.subrange(p3, p4) + tokens.subrange(p4, p5)
        + tokens.subrange(p5, p6));
    assert(tokens.subrange(0, 2) =~= seq![ARTIFACT_MAGIC, p.version as u64]);
    assert(tokens =~= enc_program(p));
}

/// Decodes a whole program from its token sequence, requiring every
/// token to be consumed; on success the tokens are exactly the decoded
/// program's encoding, and the program is well-formed.  The encoding of
/// any well-formed, machine-representable program is accepted.
#[verifier::rlimit(100)]
#[verifier::spinoff_prover]
pub fn program_from_tokens(tokens: &Vec<u64>) -> (r: Option<BytecodeProgram>)
    ensures
        r matches Some(p) ==> p.wf() && tokens@ == enc_program(p),
        (exists|p0: BytecodeProgram|
            p0.wf() && prog_fits(p0) && tokens@ == #[trigger] enc_program(p0)) ==> r is Some,
{
    let ghost has = exists|p0: BytecodeProgram|
        p0.wf() && prog_fits(p0) && tokens@ == #[trigger] enc_program(p0);
    let ghost p0: BytecodeProgram = if has {
        choose|p0: BytecodeProgram|
            p0.wf() && prog_fits(p0) && tokens@ == #[trigger] enc_program(p0)
    } else {
        vstd::pervasive::arbitrary()
    };
    let ghost o2 = 2int + enc_str(p0.name@).len();
    let ghost o3 = o2 + 1 + enc_value_list(p0.constants@).len();
    let ghost o4 = o3 + 1 + enc_fn_entries(p0.functions.entries_seq()).len();
    let ghost o5 = o4 + 1 + enc_class_entries(p0.classes.entries_seq()).len();
    let ghost o6 = o5 + enc_str(p0.main_function@).len();
    proof {
        if has {
            lemma_program_windows(tokens@, p0);
        }
    }
    if tokens.len() < 2 {
        proof {
            if has {
                assert(false);
            }
        }
        return None;
    }
    if tokens[0] != ARTIFACT_MAGIC {
        proof {
            if has {
                assert(false);
            }
        }
        return None;
    }
    let version_token = tokens[1];
    if version_token > 0xffff_ffffu64 {
        proof {
            if has {
                assert(version_token == p0.version as u64);
                assert(false);
            }
        }
        return None;
    }
    let version = version_token as u32;
    let (name, p1) = match read_str(tokens, 2) {
        Some(x) => x,
        None => {
            proof {
                if has {
                    assert(false);
                }
            }
            return None;
        },
    };
    proof {
        if has {
            assert(p1 == o2);
        }
    }
    let (constants, p2) = match read_values(
        tokens,
        p1,
        Ghost(
            if has {
                Some(p0.constants@)
            } else {
                None
            },
        ),
    ) {
        Some(x) => x,
        None => {
            proof {
                if has {
                    assert(false);
                }
            }
            return None;
        },
    };
    proof {
        if has {
            assert(p2 == o3);
        }
    }
    let (functions, p3) = match read_fn_map(
        tokens,
        p2,
        Ghost(
            if has {
                Some(p0.functions.entries_seq())
            } else {
                None
            },
        ),
    ) {
        Some(x) => x,
        None => {
            proof {
                if has {
                    assert(false);
                }
            }
            return None;
        },
    };
    proof {
        if has {
            assert(p3 == o4);
        }
    }
    let (classes, p4) = match read_class_map(
        tokens,
        p3,
        Ghost(
            if has {
                Some(p0.classes.entries_seq())
            } else {
                None
            },
        ),
    ) {
        Some(x) => x,
        None => {
            proof {
                if has {
                    assert(false);
                }
            }
            return None;
        },
    };
    proof {
        if has {
            assert(p4 == o5);
        }
    }
    let (main_function, p5) = match read_str(tokens, p4) {
        Some(x) => x,
        None => {
            proof {
                if has {
                    assert(false);
                }
            }
            return None;
        },
    };
    proof {
        if has {
            assert(p5 == o6);
        }
    }
    let (globals, p6) = match read_value_map(
        tokens,
        p5,
        Ghost(
            if has {
                Some(p0.globals.entries_seq())
            } else {
                None
            },
        ),
    ) {
        Some(x) => x,
        None => {
            proof {
                if has {
                    assert(false);
                }
            }
            return None;
        },
    };
    if p6 != tokens.len() {
        proof {
            if has {
                assert(false);
            }
        }
        return None;
    }
    let p = BytecodeProgram {
        name,
        version,
        constants,
        functions,
        classes,
        main_function,
        globals,
    };
    proof {
        assert(p.version as u64 == version_token);
        lemma_program_assemble(
            tokens@,
            p,
            p1 as int,
            p2 as int,
            p3 as int,
            p4 as int,
            p5 as int,
            p6 as int,
        );
    }
    Some(p)
}

/// The eight little-endian octets of a token.
pub open spec fn le8(t: u64) -> Seq<u8> {
    seq![
        (t & 0xff) as u8,
        ((t >> 8) & 0xff) as u8,
        ((t >> 16) & 0xff) as u8,
        ((t >> 24) & 0xff) as u8,
        ((t >> 32) & 0xff) as u8,
        ((t >> 40) & 0xff) as u8,
        ((t >> 48) & 0xff) as u8,
        ((t >> 56) & 0xff) as u8,
    ]
}

/// The binary byte form of a token sequence: eight little-endian octets
/// per token.
pub open spec fn bin_bytes(tokens: Seq<u64>) -> Seq<u8>
    decreases tokens.len(),
{
    if tokens.len() == 0 {
        Seq::empty()
    } else {
        bin_bytes(tokens.drop_last()) + le8(tokens.last())
    }
}

/// The decimal ASCII digits of a number, most significant first.
pub open spec fn dec_ascii(n: nat) -> Seq<u8>
    decreases n,
{
    if n < 10 {
        seq![(48 + n) as u8]
    } else {
        dec_ascii(n / 10).push((48 + (n % 10)) as u8)
    }
}

/// The textual byte form of a token sequence: each token in decimal,
/// each on its own line.
pub open spec fn text_bytes(tokens: Seq<u64>) -> Seq<u8>
    decreases tokens.len(),
{
    if tokens.len() == 0 {
        Seq::empty()
    } else {
        text_bytes(tokens.drop_last()) + dec_ascii(tokens.last() as nat) + seq![10u8]
    }
}

/// Appends the eight little-endian octets of a token.
fn push_le8(out: &mut Vec<u8>, t: u64)
    ensures
        final(out)@ == old(out)@ + le8(t),
{
    proof {
        assert(t & 0xff < 256 && (t >> 8) & 0xff < 256 && (t >> 16) & 0xff < 256 && (t >> 24)
            & 0xff < 256 && (t >> 32) & 0xff < 256 && (t >> 40) & 0xff < 256 && (t >> 48) & 0xff
            < 256 && (t >> 56) & 0xff < 256) by (bit_vector);
    }
    out.push((t & 0xff) as u8);
    out.push(((t >> 8) & 0xff) as u8);
    out.push(((t >> 16) & 0xff) as u8);
    out.push(((t >> 24) & 0xff) as u8);
    out.push(((t >> 32) & 0xff) as u8);
    out.push(((t >> 40) & 0xff) as u8);
    out.push(((t >> 48) & 0xff) as u8);
    out.push(((t >> 56) & 0xff) as u8);
    proof {
        assert(out@ =~= old(out)@ + le8(t));
    }
}

/// Renders a token sequence in the binary byte form.
pub fn tokens_to_bin(tokens: &Vec<u64>) -> (r: Vec<u8>)
    ensures
        r@ == bin_bytes(tokens@),
{
    let mut out: Vec<u8> = Vec::new();
    let n = tokens.len();
    let mut i: usize = 0;
    while i < n
        invariant
            n == tokens@.len(),
            i <= n,
            out@ == bin_bytes(tokens@.take(i as int)),
        decreases n - i,
    {
        push_le8(&mut out, tokens[i]);
        proof {
            assert(tokens@.take(i + 1int).drop_last() =~= tokens@.take(i as int));
            assert(tokens@.take(i + 1int).last() == tokens@[i as int]);
        }
        i = i + 1;
    }
    proof {
        assert(tokens@.take(n as int) =~= tokens@);
    }
    out
}

/// A token reassembled from eight little-endian octets yields those very
/// octets back.
proof fn lemma_le8_assemble(b0: u8, b1: u8, b2: u8, b3: u8, b4: u8, b5: u8, b6: u8, b7: u8)
    ensures
        le8(
            b0 as u64 | (b1 as u64) << 8 | (b2 as u64) << 16 | (b3 as u64) << 24 | (b4 as u64)
                << 32 | (b5 as u64) << 40 | (b6 as u64) << 48 | (b7 as u64) << 56,
        ) =~= seq![b0, b1, b2, b3, b4, b5, b6, b7],
{
    let t = b0 as u64 | (b1 as u64) << 8 | (b2 as u64) << 16 | (b3 as u64) << 24 | (b4 as u64)
        << 32 | (b5 as u64) << 40 | (b6 as u64) << 48 | (b7 as u64) << 56;
    assert((t & 0xff) == b0 as u64 && ((t >> 8) & 0xff) == b1 as u64 && ((t >> 16) & 0xff)
        == b2 as u64 && ((t >> 24) & 0xff) == b3 as u64 && ((t >> 32) & 0xff) == b4 as u64 && ((t
        >> 40) & 0xff) == b5 as u64 && ((t >> 48) & 0xff) == b6 as u64 && ((t >> 56) & 0xff)
        == b7 as u64) by (bit_vector)
        requires
            t == b0 as u64 | (b1 as u64) << 8 | (b2 as u64) << 16 | (b3 as u64) << 24 | (b4
                as u64) << 32 | (b5 as u64) << 40 | (b6 as u64) << 48 | (b7 as u64) << 56,
    ;
}

/// The binary byte form is eight bytes per token.
proof fn lemma_bin_bytes_len(tokens: Seq<u64>)
    ensures
        bin_bytes(tokens).len() == 8 * tokens.len(),
    decreases tokens.len(),
{
    if tokens.len() > 0 {
        lemma_bin_bytes_len(tokens.drop_last());
    }
}

/// Tokens with the same eight little-endian octets are the same token.
proof fn lemma_le8_injective(a: u64, b: u64)
    requires
        le8(a) == le8(b),
    ensures
        a == b,
{
    assert(le8(a)[0] == le8(b)[0] && le8(a)[1] == le8(b)[1] && le8(a)[2] == le8(b)[2] && le8(a)[3]
        == le8(b)[3] && le8(a)[4] == le8(b)[4] && le8(a)[5] == le8(b)[5] && le8(a)[6] == le8(b)[6]
        && le8(a)[7] == le8(b)[7]);
    assert(a == b) by (bit_vector)
        requires
            (a & 0xff) as u8 == (b & 0xff) as u8,
            ((a >> 8) & 0xff) as u8 == ((b >> 8) & 0xff) as u8,
            ((a >> 16) & 0xff) as u8 == ((b >> 16) & 0xff) as u8,
            ((a >> 24) & 0xff) as u8 == ((b >> 24) & 0xff) as u8,
            ((a >> 32) & 0xff) as u8 == ((b >> 32) & 0xff) as u8,
            ((a >> 40) & 0xff) as u8 == ((b >> 40) & 0xff) as u8,
            ((a >> 48) & 0xff) as u8 == ((b >> 48) & 0xff) as u8,
            ((a >> 56) & 0xff) as u8 == ((b >> 56) & 0xff) as u8,
    ;
}

/// Distinct token sequences have distinct binary byte forms.
proof fn lemma_bin_bytes_injective(a: Seq<u64>, b: Seq<u64>)
    requires
        bin_bytes(a) == bin_bytes(b),
    ensures
        a == b,
    decreases a.len(),
{
    lemma_bin_bytes_len(a);
    lemma_bin_bytes_len(b);
    assert(a.len() == b.len());
    if a.len() == 0 {
        assert(a =~= b);
    } else {
        let pa = bin_bytes(a.drop_last());
        let pb = bin_bytes(b.drop_last());
        lemma_bin_bytes_len(a.drop_last());
        lemma_bin_bytes_len(b.drop_last());
        assert(pa + le8(a.last()) == pb + le8(b.last()));
        assert forall|i: int| 0 <= i < pa.len() implies pa[i] == pb[i] by {
            assert(pa[i] == (pa + le8(a.last()))[i]);
            assert(pb[i] == (pb + le8(b.last()))[i]);
        }
        assert(pa =~= pb);
        assert forall|j: int| 0 <= j < 8 implies le8(a.last())[j] == le8(b.last())[j] by {
            assert(le8(a.last())[j] == (pa + le8(a.last()))[pa.len() + j]);
            assert(le8(b.last())[j] == (pb + le8(b.last()))[pb.len() + j]);
        }
        assert(le8(a.last()) =~= le8(b.last()));
        lemma_le8_injective(a.last(), b.last());
        lemma_bin_bytes_injective(a.drop_last(), b.drop_last());
        assert forall|i: int| 0 <= i < a.len() implies a[i] == b[i] by {
            if i < a.len() - 1 {
                assert(a[i] == a.drop_last()[i]);
                assert(b[i] == b.drop_last()[i]);
            }
        }
        assert(a =~= b);
    }
}

/// Parses the binary byte form back into tokens; on success the bytes
/// are exactly the binary form of the returned tokens, and every byte
/// sequence of eight-byte granularity is accepted.
pub fn bin_to_tokens(bytes: &Vec<u8>) -> (r: Option<Vec<u64>>)
    ensures
        r matches Some(tokens) ==> bytes@ == bin_bytes(tokens@),
        bytes@.len() % 8 == 0 ==> r is Some,
{
    if bytes.len() % 8 != 0 {
        return None;
    }
    let n = bytes.len() / 8;
    let mut tokens: Vec<u64> = Vec::new();
    let mut i: usize = 0;
    while i < n
        invariant
            bytes@.len() == n * 8,
            n * 8 <= usize::MAX,
            i <= n,
            tokens@.len() == i,
            bin_bytes(tokens@) == bytes@.take(8 * i as int),
        decreases n - i,
    {
        let base = i * 8;
        proof {
            assert(base + 8 <= bytes@.len()) by (nonlinear_arith)
                requires
                    base == i * 8,
                    i < n,
                    bytes@.len() == n * 8,
            ;
        }
        let b0 = bytes[base];
        let b1 = bytes[base + 1];
        let b2 = bytes[base + 2];
        let b3 = bytes[base + 3];
        let b4 = bytes[base + 4];
        let b5 = bytes[base + 5];
        let b6 = bytes[base + 6];
        let b7 = bytes[base + 7];
        let t = b0 as u64 | (b1 as u64) << 8u64 | (b2 as u64) << 16u64 | (b3 as u64) << 24u64 | (
        b4 as u64) << 32u64 | (b5 as u64) << 40u64 | (b6 as u64) << 48u64 | (b7 as u64) << 56u64;
        let ghost before = tokens@;
        tokens.push(t);
        proof {
            lemma_le8_assemble(b0, b1, b2, b3, b4, b5, b6, b7);
            assert(tokens@.drop_last() =~= before);
            assert(bin_bytes(tokens@) == bin_bytes(before) + le8(t));
            assert(bytes@.take(8 * (i + 1int)) =~= bytes@.take(8 * i as int) + seq![
                b0, b1, b2, b3, b4, b5, b6, b7,
            ]);
        }
        i = i + 1;
    }
    proof {
        assert(bytes@.take(8 * n as int) =~= bytes@);
    }
    Some(tokens)
}

/// Appends the decimal ASCII rendering of a token.
fn push_dec_ascii(out: &mut Vec<u8>, t: u64)
    ensures
        final(out)@ == old(out)@ + dec_ascii(t as nat),
{
    let mut digits: Vec<u8> = Vec::new();
    let ghost mut suffix: Seq<u8> = Seq::empty();
    let mut m: u64 = t;
    loop
        invariant_except_break
            suffix.len() > 0 ==> m > 0,
            dec_ascii(t as nat) == if suffix.len() == 0 {
                dec_ascii(m as nat)
            } else {
                dec_ascii(m as nat).add(suffix)
            },
        invariant
            suffix.len() == digits@.len(),
            forall|k: int|
                0 <= k < suffix.len() ==> suffix[k] == digits@[suffix.len() - 1 - k],
        ensures
            suffix.len() > 0,
            suffix.len() == digits@.len(),
            dec_ascii(t as nat) == suffix,
            forall|k: int|
                0 <= k < suffix.len() ==> suffix[k] == digits@[suffix.len() - 1 - k],
        decreases m, (if digits@.len() == 0 { 1int } else { 0int }),
    {
        let d: u64 = m % 10;
        let b: u8 = (48 + d) as u8;
        digits.push(b);
        let ghost old_suffix = suffix;
        let ghost old_m: u64 = m;
        proof {
            suffix = seq![b].add(old_suffix);
        }
        m = m / 10;
        proof {
            if old_m >= 10 {
                assert(dec_ascii(old_m as nat) == dec_ascii(m as nat).push(b));
                assert(dec_ascii(m as nat).push(b).add(old_suffix) =~= dec_ascii(m as nat).add(
                    suffix,
                ));
            } else {
                assert(dec_ascii(old_m as nat) =~= seq![b]);
            }
            if old_suffix.len() == 0 {
                assert(dec_ascii(t as nat) == dec_ascii(old_m as nat));
                assert(dec_ascii(old_m as nat).add(old_suffix) =~= dec_ascii(old_m as nat));
            }
            assert(dec_ascii(t as nat) == dec_ascii(old_m as nat).add(old_suffix));
            if m == 0 {
                assert(dec_ascii(t as nat) =~= seq![b].add(old_suffix));
            }
        }
        if m == 0 {
            break ;
        }
    }
    let len = digits.len();
    let mut k: usize = 0;
    while k < len
        invariant
            len == digits@.len(),
            len == suffix.len(),
            k <= len,
            dec_ascii(t as nat) == suffix,
            forall|j: int|
                0 <= j < suffix.len() ==> suffix[j] == digits@[suffix.len() - 1 - j],
            out@ == old(out)@ + suffix.subrange(0, k as int),
        decreases len - k,
    {
        out.push(digits[len - 1 - k]);
        proof {
            assert(out@ =~= old(out)@ + suffix.subrange(0, k + 1int));
        }
        k = k + 1;
    }
    proof {
        assert(suffix.subrange(0, suffix.len() as int) =~= suffix);
    }
}

/// Renders a token sequence in the textual byte form.
pub fn tokens_to_text(tokens: &Vec<u64>) -> (r: Vec<u8>)
    ensures
        r@ == text_bytes(tokens@),
{
    let mut out: Vec<u8> = Vec::new();
    let n = tokens.len();
    let mut i: usize = 0;
    while i < n
        invariant
            n == tokens@.len(),
            i <= n,
            out@ == text_bytes(tokens@.take(i as int)),
        decreases n - i,
    {
        push_dec_ascii(&mut out, tokens[i]);
        out.push(10);
        proof {
            assert(tokens@.take(i + 1int).drop_last() =~= tokens@.take(i as int));
            assert(tokens@.take(i + 1int).last() == tokens@[i as int]);
            assert(out@ =~= text_bytes(tokens@.take(i + 1int)));
        }
        i = i + 1;
    }
    proof {
        assert(tokens@.take(n as int) =~= tokens@);
    }
    out
}

/// Parses the textual byte form back into tokens.  On success the bytes
/// are exactly the textual form of the returned tokens (so in
/// particular, no leading zeros and a newline after every number); and
/// the textual form of any token sequence is always accepted.
#[verifier::rlimit(100)]
pub fn text_to_tokens(bytes: &Vec<u8>) -> (r: Option<Vec<u64>>)
    ensures
        r matches Some(tokens) ==> bytes@ == text_bytes(tokens@),
        (exists|ts0: Seq<u64>| bytes@ == #[trigger] text_bytes(ts0)) ==> r is Some,
{
    let ghost has = exists|ts0: Seq<u64>| bytes@ == #[trigger] text_bytes(ts0);
    let ghost ts0: Seq<u64> = if has {
        choose|ts0: Seq<u64>| bytes@ == #[trigger] text_bytes(ts0)
    } else {
        Seq::empty()
    };
    let n = bytes.len();
    let mut tokens: Vec<u64> = Vec::new();
    let mut cur: usize = 0;
    while cur < n
        invariant
            n == bytes@.len(),
            cur <= n,
            text_bytes(tokens@) == bytes@.take(cur as int),
            has == (exists|ts0x: Seq<u64>| bytes@ == #[trigger] text_bytes(ts0x)),
            has ==> bytes@ == text_bytes(ts0),
            has ==> tokens@.len() <= ts0.len() && tokens@ == ts0.take(tokens@.len() as int),
        decreases n - cur,
    {
        let ghost k = tokens@.len() as int;
        let ghost rest = ts0.skip(k);
        let ghost digits = dec_ascii(rest[0] as nat);
        proof {
            if has {
                assert(ts0.take(k) + ts0.skip(k) =~= ts0);
                lemma_text_bytes_cat(ts0.take(k), rest);
                assert(text_bytes(ts0.take(k)) == text_bytes(tokens@));
                assert(text_bytes(rest).len() == n - cur);
                lemma_text_bytes_len(rest);
                assert(rest.len() > 0);
                lemma_text_bytes_first(rest);
                lemma_dec_ascii_digits(rest[0] as nat);
                lemma_dec_ascii_len(rest[0] as nat);
                assert forall|i: int| 0 <= i < n - cur implies bytes@[cur + i] == text_bytes(
                    rest,
                )[i] by {
                    assert(bytes@[cur + i] == (text_bytes(ts0.take(k)) + text_bytes(rest))[cur
                        + i]);
                }
                assert(bytes@[cur as int] == digits[0]);
                assert(cur + digits.len() + 1 <= n);
                assert(forall|j: int|
                    0 <= j < digits.len() ==> bytes@[cur + j] == digits[j]);
                assert(bytes@[cur + digits.len()] == 10);
            }
        }
        let ghost line_start_g = cur as int;
        let first = bytes[cur];
        if first < 48 || first > 57 {
            proof {
                if has {
                    assert(48 <= digits[0] <= 57);
                    assert(false);
                }
            }
            return None;
        }
        let mut t: u64 = (first - 48) as u64;
        cur = cur + 1;
        if t == 0 {
            // A zero is written as the single digit `0`.
            proof {
                if has {
                    lemma_dec_ascii_first_digit(rest[0] as nat);
                    assert(rest[0] == 0);
                    assert(digits.len() == 1);
                }
            }
        } else {
            proof {
                if has {
                    assert(digits[0] == 48 + t);
                    assert(dec_ascii(t as nat) =~= digits.take(1));
                }
            }
            while cur < n && bytes[cur as usize] >= 48 && bytes[cur as usize] <= 57
                invariant
                    n == bytes@.len(),
                    0 <= line_start_g < cur <= n,
                    t >= 1,
                    dec_ascii(t as nat) == bytes@.subrange(line_start_g, cur as int),
                    has == (exists|ts0x: Seq<u64>| bytes@ == #[trigger] text_bytes(ts0x)),
                    has ==> bytes@ == text_bytes(ts0),
                    has ==> rest.len() > 0 && digits == dec_ascii(rest[0] as nat),
                    has ==> line_start_g + digits.len() + 1 <= n,
                    has ==> (forall|j: int|
                        0 <= j < digits.len() ==> bytes@[line_start_g + j]
                            == #[trigger] digits[j]),
                    has ==> bytes@[line_start_g + digits.len()] == 10,
                    has ==> (forall|j: int| 0 <= j < digits.len() ==> 48 <= #[trigger] digits[j]
                        <= 57),
                    has ==> rest[0] >= 1,
                    has ==> cur - line_start_g <= digits.len() && dec_ascii(t as nat)
                        == digits.take(cur - line_start_g),
                decreases n - cur,
            {
                let d = (bytes[cur] - 48) as u64;
                proof {
                    if has {
                        let j = cur - line_start_g;
                        assert(j < digits.len());
                        let tv = (t as nat) * 10 + (d as nat);
                        assert(tv >= 10);
                        assert(tv as nat / 10 == t as nat) by (nonlinear_arith)
                            requires
                                tv == (t as nat) * 10 + (d as nat),
                                d < 10,
                        ;
                        assert(tv as nat % 10 == d as nat) by (nonlinear_arith)
                            requires
                                tv == (t as nat) * 10 + (d as nat),
                                d < 10,
                        ;
                        assert(bytes@[cur as int] == digits[j]);
                        assert(dec_ascii(tv) == dec_ascii(t as nat).push((48 + d) as u8));
                        assert(dec_ascii(tv) =~= digits.take(j + 1));
                        assert(dec_ascii(tv).len() == j + 1);
                        if j + 1 < digits.len() {
                            lemma_dec_ascii_len(tv);
                            lemma_dec_ascii_len(rest[0] as nat);
                            lemma_pow10_monotonic((j + 1) as nat, (digits.len() - 1) as nat);
                            assert(tv < pow10((j + 1) as nat));
                            assert(rest[0] as nat >= pow10((digits.len() - 1) as nat));
                            assert(tv < rest[0] as nat);
                        } else {
                            assert(dec_ascii(tv) =~= digits);
                            lemma_dec_ascii_injective(tv, rest[0] as nat);
                            assert(tv == rest[0] as nat);
                        }
                        assert(tv <= u64::MAX);
                    }
                }
                let scaled = match t.checked_mul(10) {
                    Some(x) => x,
                    None => {
                        proof {
                            if has {
                                assert(false);
                            }
                        }
                        return None;
                    },
                };
                let bumped = match scaled.checked_add(d) {
                    Some(x) => x,
                    None => {
                        proof {
                            if has {
                                assert(false);
                            }
                        }
                        return None;
                    },
                };
                proof {
                    assert(0 <= line_start_g < cur + 1 <= n);
                    assert(dec_ascii((t * 10 + d) as nat) == dec_ascii(t as nat).push(
                        (48 + d) as u8,
                    ));
                    assert(bumped == t * 10 + d);
                    assert forall|ii: int|
                        line_start_g <= ii < cur + 1 implies #[trigger] bytes@.subrange(
                        line_start_g,
                        cur + 1int,
                    )[ii - line_start_g] == bytes@.subrange(line_start_g, cur as int).push(
                        bytes@[cur as int],
                    )[ii - line_start_g] by {
                        assert(bytes@.subrange(line_start_g, cur + 1int)[ii - line_start_g]
                            == bytes@[ii]);
                    }
                    assert(bytes@.subrange(line_start_g, cur + 1int) =~= bytes@.subrange(
                        line_start_g,
                        cur as int,
                    ).push(bytes@[cur as int]));
                }
                t = bumped;
                cur = cur + 1;
            }
            proof {
                if has {
                    let j = cur - line_start_g;
                    if j < digits.len() {
                        assert(bytes@[cur as int] == digits[j]);
                        assert(48 <= digits[j] <= 57);
                        assert(false);
                    }
                    assert(dec_ascii(t as nat) =~= digits);
                    lemma_dec_ascii_injective(t as nat, rest[0] as nat);
                }
            }
        }
        proof {
            if has {
                assert(cur - line_start_g == digits.len());
                assert(bytes@[cur as int] == 10);
                assert(t == rest[0]);
            }
        }
        if cur >= n || bytes[cur] != 10 {
            proof {
                if has {
                    assert(false);
                }
            }
            return None;
        }
        cur = cur + 1;
        let ghost before = tokens@;
        tokens.push(t);
        proof {
            assert(tokens@.drop_last() =~= before);
            if t == 0 {
                assert(dec_ascii(t as nat) =~= seq![48u8]);
                assert(bytes@.subrange(line_start_g, cur - 1int) =~= dec_ascii(t as nat));
            }
            assert(text_bytes(tokens@) == text_bytes(before) + dec_ascii(t as nat) + seq![
                10u8,
            ]);
            assert(bytes@.take(cur as int) =~= bytes@.take(line_start_g) + dec_ascii(
                t as nat,
            ) + seq![10u8]);
            if has {
                assert(rest[0] == ts0[k]);
                assert(tokens@ =~= ts0.take(k + 1));
            }
        }
    }
    proof {
        assert(bytes@.take(n as int) =~= bytes@);
    }
    Some(tokens)
}

/// Renders one value in the textual encoding.
pub fn render_value_text(v: &Value) -> (r: Vec<u8>)
    ensures
        r@ == text_bytes(enc_value(*v)),
{
    let mut tokens: Vec<u64> = Vec::new();
    write_value(&mut tokens, v);
    tokens_to_text(&tokens)
}

/// Parses one value from the textual encoding, requiring every byte to
/// be consumed.
///
/// A successful parse returns exactly the value whose rendering the
/// input is, and every rendering parses successfully; so rendering
/// followed by parsing the textual encoding is idempotent for all value
/// variants.
pub fn parse_value_text(bytes: &Vec<u8>) -> (r: Option<Value>)
    ensures
        r matches Some(w) ==> bytes@ == text_bytes(enc_value(w)),
        forall|v0: Value|
            value_fits(v0) && bytes@ == text_bytes(#[trigger] enc_value(v0)) ==> r is Some,
{
    let ghost has = exists|v0: Value|
        value_fits(v0) && bytes@ == text_bytes(#[trigger] enc_value(v0));
    let ghost v0: Value = if has {
        choose|v0: Value| value_fits(v0) && bytes@ == text_bytes(#[trigger] enc_value(v0))
    } else {
        Value::Null
    };
    let tokens = match text_to_tokens(bytes) {
        Some(ts) => ts,
        None => {
            proof {
                if has {
                    assert(bytes@ == text_bytes(enc_value(v0)));
                    assert(false);
                }
            }
            return None;
        },
    };
    proof {
        if has {
            lemma_text_bytes_injective(tokens@, enc_value(v0));
            assert(tokens@ == enc_value(v0));
            assert(tokens@.subrange(0, enc_value(v0).len() as int) =~= enc_value(v0));
            assert(value_decodable(tokens@, 0, v0)) by {
                reveal(value_decodable);
            }
        }
    }
    let (v, end) = match read_value(&tokens, 0) {
        Some(x) => x,
        None => {
            proof {
                if has {
                    assert(false);
                }
            }
            return None;
        },
    };
    if end != tokens.len() {
        proof {
            if has {
                assert(end == enc_value(v0).len());
                assert(false);
            }
        }
        return None;
    }
    proof {
        assert(tokens@.subrange(0, tokens@.len() as int) =~= tokens@);
    }
    Some(v)
}

/// Ten to the given power.
pub open spec fn pow10(k: nat) -> nat
    decreases k,
{
    if k == 0 {
        1nat
    } else {
        10 * pow10((k - 1) as nat)
    }
}

/// Every byte of a decimal rendering is an ASCII digit.
proof fn lemma_dec_ascii_digits(n: nat)
    ensures
        forall|i: int| 0 <= i < dec_ascii(n).len() ==> 48 <= #[trigger] dec_ascii(n)[i] <= 57,
    decreases n,
{
    if n >= 10 {
        lemma_dec_ascii_digits(n / 10);
        assert forall|i: int| 0 <= i < dec_ascii(n).len() implies 48 <= #[trigger] dec_ascii(n)[i]
            <= 57 by {
            if i < dec_ascii(n / 10).len() {
                assert(dec_ascii(n)[i] == dec_ascii(n / 10)[i]);
            }
        }
    }
}

/// A decimal rendering has as many digits as the number needs: the
/// number lies under ten to the digit count, and at or above a tenth of
/// it.
proof fn lemma_dec_ascii_len(n: nat)
    ensures
        dec_ascii(n).len() >= 1,
        n < pow10(dec_ascii(n).len()),
        n >= pow10((dec_ascii(n).len() - 1) as nat) || n == 0,
    decreases n,
{
    if n < 10 {
        assert(pow10(0) == 1);
        assert(pow10(1) == 10 * pow10(0));
    } else {
        lemma_dec_ascii_len(n / 10);
        let l = dec_ascii(n / 10).len();
        assert(dec_ascii(n).len() == l + 1);
        assert(n / 10 < pow10(l));
        assert(n < 10 * pow10(l));
        assert(pow10(l + 1) == 10 * pow10(l));
        assert(n / 10 >= pow10((l - 1) as nat));
        assert(n >= 10 * (n / 10));
        assert(10 * (n / 10) >= 10 * pow10((l - 1) as nat));
        assert(pow10(l) == 10 * pow10((l - 1) as nat));
    }
}

/// Distinct numbers have distinct decimal renderings.
proof fn lemma_dec_ascii_injective(a: nat, b: nat)
    requires
        dec_ascii(a) == dec_ascii(b),
    ensures
        a == b,
    decreases a,
{
    if a < 10 && b < 10 {
        assert(dec_ascii(a)[0] == 48 + a);
        assert(dec_ascii(b)[0] == 48 + b);
    } else if a >= 10 && b >= 10 {
        assert(dec_ascii(a).last() == 48 + a % 10);
        assert(dec_ascii(b).last() == 48 + b % 10);
        assert(dec_ascii(a).drop_last() =~= dec_ascii(a / 10));
        assert(dec_ascii(b).drop_last() =~= dec_ascii(b / 10));
        lemma_dec_ascii_injective(a / 10, b / 10);
        assert(a == 10 * (a / 10) + a % 10);
        assert(b == 10 * (b / 10) + b % 10);
    } else {
        assert(dec_ascii(a).len() == dec_ascii(b).len());
        if a >= 10 {
            lemma_dec_ascii_len(a / 10);
            assert(dec_ascii(a).len() >= 2);
        } else {
            lemma_dec_ascii_len(b / 10);
            assert(dec_ascii(b).len() >= 2);
        }
        assert(false);
    }
}

/// The textual byte form distributes over concatenation.
proof fn lemma_text_bytes_cat(a: Seq<u64>, b: Seq<u64>)
    ensures
        text_bytes(a + b) == text_bytes(a) + text_bytes(b),
    decreases b.len(),
{
    if b.len() == 0 {
        assert(a + b =~= a);
        assert(text_bytes(a) + text_bytes(b) =~= text_bytes(a));
    } else {
        lemma_text_bytes_cat(a, b.drop_last());
        assert((a + b).drop_last() =~= a + b.drop_last());
        assert((a + b).last() == b.last());
        assert(text_bytes(a + b) == text_bytes(a + b.drop_last()) + dec_ascii(
            (a + b).last() as nat,
        ) + seq![10u8]);
        assert(text_bytes(a) + text_bytes(b.drop_last()) + dec_ascii(b.last() as nat) + seq![
            10u8,
        ] =~= text_bytes(a) + text_bytes(b));
    }
}

/// The textual byte form of a non-empty token sequence starts with the
/// first token's line.
proof fn lemma_text_bytes_first(ts: Seq<u64>)
    requires
        ts.len() > 0,
    ensures
        text_bytes(ts) == dec_ascii(ts[0] as nat) + seq![10u8] + text_bytes(ts.drop_first()),
    decreases ts.len(),
{
    let head = seq![ts[0]];
    assert(ts =~= head + ts.drop_first());
    lemma_text_bytes_cat(head, ts.drop_first());
    assert(head.drop_last() =~= Seq::<u64>::empty());
    assert(text_bytes(Seq::<u64>::empty()) =~= Seq::<u8>::empty());
    assert(text_bytes(head) == text_bytes(head.drop_last()) + dec_ascii(head.last() as nat)
        + seq![10u8]);
    assert(text_bytes(head) =~= dec_ascii(ts[0] as nat) + seq![10u8]);
    assert(dec_ascii(ts[0] as nat) + seq![10u8] + text_bytes(ts.drop_first()) =~= text_bytes(head)
        + text_bytes(ts.drop_first()));
}

/// The first digit of a positive number's rendering is not zero.
proof fn lemma_dec_ascii_first_digit(n: nat)
    ensures
        dec_ascii(n).len() >= 1,
        n > 0 ==> dec_ascii(n)[0] != 48,
        dec_ascii(n)[0] == 48 ==> n == 0,
    decreases n,
{
    if n >= 10 {
        lemma_dec_ascii_first_digit(n / 10);
        assert(dec_ascii(n)[0] == dec_ascii(n / 10)[0]);
    }
}

/// `pow10` is monotonic.
proof fn lemma_pow10_monotonic(a: nat, b: nat)
    requires
        a <= b,
    ensures
        pow10(a) <= pow10(b),
    decreases b,
{
    if a < b {
        lemma_pow10_monotonic(a, (b - 1) as nat);
    }
}

/// A non-empty token sequence has a non-empty textual form, and an empty
/// one an empty form.
proof fn lemma_text_bytes_len(ts: Seq<u64>)
    ensures
        ts.len() == 0 <==> text_bytes(ts).len() == 0,
{
    if ts.len() > 0 {
        lemma_dec_ascii_len(ts.last() as nat);
    }
}

/// Distinct token sequences have distinct textual forms.
proof fn lemma_text_bytes_injective(a: Seq<u64>, b: Seq<u64>)
    requires
        text_bytes(a) == text_bytes(b),
    ensures
        a == b,
    decreases a.len(),
{
    lemma_text_bytes_len(a);
    lemma_text_bytes_len(b);
    if a.len() == 0 {
        assert(a =~= b);
    } else {
        assert(b.len() > 0);
        lemma_text_bytes_first(a);
        lemma_text_bytes_first(b);
        lemma_dec_ascii_digits(a[0] as nat);
        lemma_dec_ascii_digits(b[0] as nat);
        let la = dec_ascii(a[0] as nat).len();
        let lb = dec_ascii(b[0] as nat).len();
        lemma_dec_ascii_len(a[0] as nat);
        lemma_dec_ascii_len(b[0] as nat);
        if la < lb {
            assert(text_bytes(a)[la as int] == 10);
            assert(text_bytes(b)[la as int] == dec_ascii(b[0] as nat)[la as int]);
            assert(false);
        }
        if lb < la {
            assert(text_bytes(b)[lb as int] == 10);
            assert(text_bytes(a)[lb as int] == dec_ascii(a[0] as nat)[lb as int]);
            assert(false);
        }
        assert forall|i: int| 0 <= i < la implies dec_ascii(a[0] as nat)[i] == dec_ascii(
            b[0] as nat,
        )[i] by {
            assert(text_bytes(a)[i] == dec_ascii(a[0] as nat)[i]);
            assert(text_bytes(b)[i] == dec_ascii(b[0] as nat)[i]);
        }
        assert(dec_ascii(a[0] as nat) =~= dec_ascii(b[0] as nat));
        lemma_dec_ascii_injective(a[0] as nat, b[0] as nat);
        assert forall|i: int|
            0 <= i < text_bytes(a.drop_first()).len() implies text_bytes(a.drop_first())[i]
            == text_bytes(b.drop_first())[i] by {
            assert(text_bytes(a)[la + 1 + i] == text_bytes(a.drop_first())[i]);
            assert(text_bytes(b)[la + 1 + i] == text_bytes(b.drop_first())[i]);
        }
        assert(text_bytes(a.drop_first()).len() == text_bytes(b.drop_first()).len());
        assert(text_bytes(a.drop_first()) =~= text_bytes(b.drop_first()));
        lemma_text_bytes_injective(a.drop_first(), b.drop_first());
        assert(a.len() == b.len());
        assert forall|i: int| 0 <= i < a.len() implies a[i] == b[i] by {
            if i > 0 {
                assert(a.drop_first()[i - 1] == b.drop_first()[i - 1]);
            }
        }
        assert(a =~= b);
    }
}

/// Which of the two byte encodings an artifact used.
#[derive(Debug, Clone, Copy, PartialEq, Eq, Structural)]
pub enum ArtifactCodec {
    /// The compact binary encoding.
    Binary,
    /// The textual encoding.
    Text,
}

/// The byte form of a program under a codec.
pub open spec fn artifact_bytes(codec: ArtifactCodec, p: BytecodeProgram) -> Seq<u8> {
    match codec {
        ArtifactCodec::Binary => bin_bytes(enc_program(p)),
        ArtifactCodec::Text => text_bytes(enc_program(p)),
    }
}

/// Saves a program under the chosen codec.  Saving is a pure function of
/// the program's content, so re-saving a program loaded from an artifact
/// reproduces that artifact byte for byte.
pub fn save_program(p: &BytecodeProgram, codec: ArtifactCodec) -> (r: Vec<u8>)
    ensures
        r@ == artifact_bytes(codec, *p),
{
    let tokens = program_to_tokens(p);
    match codec {
        ArtifactCodec::Binary => tokens_to_bin(&tokens),
        ArtifactCodec::Text => tokens_to_text(&tokens),
    }
}

/// Decodes a program artifact: the compact binary encoding is tried
/// first, then the textual encoding; the first that decodes wins.
///
/// On success the input is exactly the returned program's encoding under
/// the returned codec — the guarantee that makes a load/save round trip
/// byte-identical — and the program's name tables are well-formed.  The
/// saved byte form of any well-formed, machine-representable program is
/// always accepted, and one in the binary form is returned as binary.
pub fn load_program_from_bytes(bytes: &Vec<u8>) -> (r: Result<
    (BytecodeProgram, ArtifactCodec),
    VmError,
>)
    ensures
        r matches Ok((p, codec)) ==> p.wf() && bytes@ == artifact_bytes(codec, p),
        r matches Err(e) ==> e is InvalidBytecode,
        (exists|c0: ArtifactCodec, p0: BytecodeProgram|
            p0.wf() && prog_fits(p0) && bytes@ == #[trigger] artifact_bytes(c0, p0)) ==> r is Ok,
        (exists|p0: BytecodeProgram|
            p0.wf() && prog_fits(p0) && bytes@ == bin_bytes(#[trigger] enc_program(p0))) ==> (r
            matches Ok((p, codec)) && codec == ArtifactCodec::Binary),
{
    let ghost has = exists|c0: ArtifactCodec, p0: BytecodeProgram|
        p0.wf() && prog_fits(p0) && bytes@ == #[trigger] artifact_bytes(c0, p0);
    let ghost (c0, p0): (ArtifactCodec, BytecodeProgram) = if has {
        choose|c0: ArtifactCodec, p0: BytecodeProgram|
            p0.wf() && prog_fits(p0) && bytes@ == #[trigger] artifact_bytes(c0, p0)
    } else {
        vstd::pervasive::arbitrary()
    };
    let ghost has_bin = exists|pb: BytecodeProgram|
        pb.wf() && prog_fits(pb) && bytes@ == bin_bytes(#[trigger] enc_program(pb));
    let ghost pb: BytecodeProgram = if has_bin {
        choose|pb: BytecodeProgram|
            pb.wf() && prog_fits(pb) && bytes@ == bin_bytes(#[trigger] enc_program(pb))
    } else {
        vstd::pervasive::arbitrary()
    };
    match bin_to_tokens(bytes) {
        Some(tokens) => {
            proof {
                if has_bin {
                    lemma_bin_bytes_injective(tokens@, enc_program(pb));
                    assert(tokens@ == enc_program(pb));
                }
            }
            match program_from_tokens(&tokens) {
                Some(p) => {
                    return Ok((p, ArtifactCodec::Binary));
                },
                None => {
                    proof {
                        if has_bin {
                            assert(false);
                        }
                    }
                },
            }
        },
        None => {
            proof {
                if has_bin {
                    lemma_bin_bytes_len(enc_program(pb));
                    vstd::arithmetic::div_mod::lemma_mod_multiples_basic(
                        enc_program(pb).len() as int,
                        8,
                    );
                    assert(bytes@.len() % 8 == 0);
                    assert(false);
                }
            }
        },
    }
    proof {
        if has && c0 is Binary {
            assert(bytes@ == bin_bytes(enc_program(p0)));
            assert(has_bin);
            assert(false);
        }
    }
    match text_to_tokens(bytes) {
        Some(tokens) => {
            proof {
                if has {
                    assert(c0 is Text);
                    assert(bytes@ == text_bytes(enc_program(p0)));
                    lemma_text_bytes_injective(tokens@, enc_program(p0));
                    assert(tokens@ == enc_program(p0));
                }
            }
            match program_from_tokens(&tokens) {
                Some(p) => {
                    return Ok((p, ArtifactCodec::Text));
                },
                None => {
                    proof {
                        if has {
                            assert(false);
                        }
                    }
                },
            }
        },
        None => {
            proof {
                if has {
                    assert(bytes@ == text_bytes(enc_program(p0)));
                    assert(false);
                }
            }
        },
    }
    Err(VmError::InvalidBytecode("Failed to parse bytecode file".to_owned()))
}

} // verus!
