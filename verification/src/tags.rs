//! The line-oriented `key=value` dictionary parser used for localization
//! lookups over a decoded archive record's bytes: blank lines and
//! `#`-comments are skipped, every other line must hold exactly one `=`,
//! and a later entry for a key wins.

use vstd::prelude::*;

use vstd::utf8::{decode_utf8, valid_utf8};

use crate::reader::{find_byte, lemma_find_byte, read_bytes, scan_byte};
use crate::text::utf8_to_string;
use crate::values::{assoc_map, assoc_insert, lemma_merge_step, unique_keys};

verus! {

/// A line the parser cannot use: its 1-based number and its decoded text.
#[derive(Debug)]
pub struct TagParseError(pub usize, pub String);

/// An ASCII whitespace byte, as the parser strips it from line ends.
pub open spec fn is_space(b: u8) -> bool {
    b == 0x20 || b == 0x09 || b == 0x0a || b == 0x0b || b == 0x0c || b == 0x0d
}

/// The line with its leading whitespace removed.
pub open spec fn trim_front(s: Seq<u8>) -> Seq<u8>
    decreases s.len(),
{
    if s.len() > 0 && is_space(s[0]) {
        trim_front(s.drop_first())
    } else {
        s
    }
}

/// The line with its trailing whitespace removed.
pub open spec fn trim_back(s: Seq<u8>) -> Seq<u8>
    decreases s.len(),
{
    if s.len() > 0 && is_space(s.last()) {
        trim_back(s.drop_last())
    } else {
        s
    }
}

/// The line with whitespace removed from both ends.
pub open spec fn spec_trim(s: Seq<u8>) -> Seq<u8> {
    trim_back(trim_front(s))
}

/// Trimming the front is dropping the leading run of whitespace.
proof fn lemma_trim_front_at(s: Seq<u8>, a: int)
    requires
        0 <= a <= s.len(),
        forall|k: int| 0 <= k < a ==> is_space(s[k]),
        a == s.len() || !is_space(s[a]),
    ensures
        trim_front(s) == s.skip(a),
    decreases a,
{
    if a == 0 {
        assert(s.skip(0) =~= s);
    } else {
        assert(forall|k: int| 0 <= k < a - 1 ==> is_space(s.drop_first()[k]));
        lemma_trim_front_at(s.drop_first(), a - 1);
        assert(s.drop_first().skip(a - 1) =~= s.skip(a));
    }
}

/// Trimming the back is cutting at the trailing run of whitespace.
proof fn lemma_trim_back_at(s: Seq<u8>, b: int)
    requires
        0 <= b <= s.len(),
        forall|k: int| b <= k < s.len() ==> is_space(s[k]),
        b == 0 || !is_space(s[b - 1]),
    ensures
        trim_back(s) == s.take(b),
    decreases s.len() - b,
{
    if b < s.len() {
        assert(forall|k: int| b <= k < s.drop_last().len() ==> is_space(s.drop_last()[k]));
        lemma_trim_back_at(s.drop_last(), b);
        assert(s.drop_last().take(b) =~= s.take(b));
    } else {
        assert(s.take(b) =~= s);
    }
}

/// The dictionary the bytes from `pos` on denote, counting lines from
/// `lineno`: each non-blank, non-comment line must hold exactly one `=`
/// between its trimmed key and value; a later line for a key wins; a line
/// that is not UTF-8 ends parsing with what was collected.
pub open spec fn spec_tags(d: Seq<u8>, pos: int, lineno: int) -> Result<
    Map<Seq<char>, Seq<char>>,
    (int, Seq<char>),
>
    decreases d.len() - pos,
{
    if pos < 0 || pos >= d.len() {
        Ok(Map::empty())
    } else {
        let zo = find_byte(d, pos, 0x0a);
        let zend: int = match zo {
            Some(z) => z,
            None => d.len() as int,
        };
        let next: int = match zo {
            Some(z) => z + 1,
            None => d.len() as int,
        };
        if next <= pos || next > d.len() || zend < pos {
            // the newline scan stays in range; this arm is out of reach
            Ok(Map::empty())
        } else {
            let line = d.subrange(pos, zend);
            if !valid_utf8(line) {
                Ok(Map::empty())
            } else {
                let content = spec_trim(line);
                if content.len() == 0 || content[0] == 0x23 {
                    spec_tags(d, next, lineno + 1)
                } else {
                    match find_byte(content, 0, 0x3d) {
                        None => Err((lineno, decode_utf8(line))),
                        Some(k) => {
                            if find_byte(content, k + 1, 0x3d) is Some {
                                Err((lineno, decode_utf8(line)))
                            } else {
                                let tagb = content.subrange(0, k);
                                let valb = content.subrange(k + 1, content.len() as int);
                                if !valid_utf8(tagb) || !valid_utf8(valb) {
                                    // splitting a valid line at an ASCII byte keeps
                                    // both halves valid; this arm is out of reach
                                    Err((lineno, decode_utf8(line)))
                                } else {
                                    match spec_tags(d, next, lineno + 1) {
                                        Err(e) => Err(e),
                                        Ok(rest) => Ok(
                                            if rest.contains_key(decode_utf8(tagb)) {
                                                rest
                                            } else {
                                                rest.insert(decode_utf8(tagb), decode_utf8(valb))
                                            },
                                        ),
                                    }
                                }
                            }
                        },
                    }
                }
            }
        }
    }
}

/// Joins the entries already parsed with what the remaining lines yield;
/// the remaining lines win on a shared key.
pub open spec fn tags_combine(
    acc: Map<Seq<char>, Seq<char>>,
    r: Result<Map<Seq<char>, Seq<char>>, (int, Seq<char>)>,
) -> Result<Map<Seq<char>, Seq<char>>, (int, Seq<char>)> {
    match r {
        Ok(m) => Ok(acc.union_prefer_right(m)),
        Err(e) => Err(e),
    }
}

/// Whether this byte is ASCII whitespace.
fn is_space_byte(b: u8) -> (r: bool)
    ensures
        r == is_space(b),
{
    b == 0x20 || b == 0x09 || b == 0x0a || b == 0x0b || b == 0x0c || b == 0x0d
}

/// Parses a `key=value` dictionary from raw bytes. Keys are unique in the
/// result; a later line for a key has overwritten an earlier one. The
/// bound on the input length only keeps the line counter inside the
/// machine word.
#[verifier::rlimit(100)]
pub fn parse(bytes: &[u8]) -> (r: Result<Vec<(String, String)>, TagParseError>)
    requires
        bytes@.len() < usize::MAX,
    ensures
        match r {
            Ok(v) => unique_keys(v@) && spec_tags(bytes@, 0, 1) == Ok::<
                Map<Seq<char>, Seq<char>>,
                (int, Seq<char>),
            >(assoc_map(v@)),
            Err(e) => spec_tags(bytes@, 0, 1) matches Err(t) && t.0 == e.0 as int && t.1 == e.1@,
        },
{
    let d = vstd::slice::slice_to_vec(bytes);
    let mut out: Vec<(String, String)> = Vec::new();
    let mut pos: usize = 0;
    let mut lineno: usize = 1;
    proof {
        assert(assoc_map(out@) =~= Map::<Seq<char>, Seq<char>>::empty());
        if spec_tags(d@, 0, 1) is Ok {
            let m = spec_tags(d@, 0, 1)->Ok_0;
            assert(assoc_map(out@).union_prefer_right(m) =~= m);
        }
    }
    loop
        invariant
            d@ == bytes@,
            d@.len() < usize::MAX,
            pos <= d.len(),
            lineno <= pos + 1,
            unique_keys(out@),
            tags_combine(assoc_map(out@), spec_tags(d@, pos as int, lineno as int)) == spec_tags(
                d@,
                0,
                1,
            ),
        decreases d.len() - pos,
    {
        if pos >= d.len() {
            proof {
                assert(assoc_map(out@).union_prefer_right(Map::empty()) =~= assoc_map(out@));
            }
            return Ok(out);
        }
        let zo = scan_byte(&d, pos, 0x0a);
        proof {
            lemma_find_byte(d@, pos as int, 0x0a);
        }
        let (zend, next) = match zo {
            Some(z) => (z, z + 1),
            None => (d.len(), d.len()),
        };
        let line = read_bytes(&d, pos, zend - pos).unwrap();
        proof {
            assert(line@ =~= d@.subrange(pos as int, zend as int));
        }
        let ls = match utf8_to_string(&line) {
            Ok(s) => s,
            Err(_) => {
                proof {
                    assert(assoc_map(out@).union_prefer_right(Map::empty()) =~= assoc_map(out@));
                }
                return Ok(out);
            },
        };
        let mut a: usize = 0;
        while a < line.len() && is_space_byte(line[a])
            invariant
                a <= line.len(),
                forall|k: int| 0 <= k < a ==> is_space(line@[k]),
            decreases line.len() - a,
        {
            a = a + 1;
        }
        let mut b: usize = line.len();
        while b > a && is_space_byte(line[b - 1])
            invariant
                a <= b <= line.len(),
                forall|k: int| b <= k < line.len() ==> is_space(line@[k]),
            decreases b,
        {
            b = b - 1;
        }
        proof {
            lemma_trim_front_at(line@, a as int);
            assert(forall|k: int|
                (b - a) <= k < line@.skip(a as int).len() ==> is_space(line@.skip(a as int)[k]));
            lemma_trim_back_at(line@.skip(a as int), (b - a) as int);
            assert(line@.skip(a as int).take((b - a) as int) =~= line@.subrange(
                a as int,
                b as int,
            ));
        }
        if b == a || line[a] == 0x23 {
            pos = next;
            lineno = lineno + 1;
            continue ;
        }
        let content = read_bytes(&line, a, b - a).unwrap();
        proof {
            assert(content@ =~= line@.subrange(a as int, b as int));
        }
        let k1 = match scan_byte(&content, 0, 0x3d) {
            Some(k) => k,
            None => {
                return Err(TagParseError(lineno, ls));
            },
        };
        proof {
            lemma_find_byte(content@, 0, 0x3d);
        }
        match scan_byte(&content, k1 + 1, 0x3d) {
            Some(_) => {
                return Err(TagParseError(lineno, ls));
            },
            None => {},
        }
        let tagb = read_bytes(&content, 0, k1).unwrap();
        let valb = read_bytes(&content, k1 + 1, content.len() - (k1 + 1)).unwrap();
        proof {
            assert(tagb@ =~= content@.subrange(0, k1 as int));
            assert(valb@ =~= content@.subrange(k1 + 1, content@.len() as int));
        }
        let tag = match utf8_to_string(&tagb) {
            Ok(t) => t,
            Err(_) => {
                return Err(TagParseError(lineno, ls));
            },
        };
        let val = match utf8_to_string(&valb) {
            Ok(v) => v,
            Err(_) => {
                return Err(TagParseError(lineno, ls));
            },
        };
        proof {
            let rest = spec_tags(d@, next as int, lineno + 1);
            if rest is Ok {
                lemma_merge_step(assoc_map(out@), rest->Ok_0, tag@, val@);
            }
        }
        assoc_insert(&mut out, tag, val);
        pos = next;
        lineno = lineno + 1;
    }
}

} // verus!
