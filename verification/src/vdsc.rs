//! Decoding the cells of the VDSC futures board feed.
//!
//! Each cell of the feed is keyed by a nine-byte symbol followed by the number of the
//! column it updates; only some columns are kept, each in one field of the symbol's row.
use crate::investing::{trim_end, trim_start, trim_text};
use crate::text::{parse_integer, parse_usize};
use vstd::prelude::*;
use vstd::string::StringSliceAdditionalSpecFns;
use vstd::utf8::is_char_boundary;
use vstd::utf8::decode_utf8;

verus! {

/// A column of the futures board that is kept.
#[derive(Clone, Copy, Debug, PartialEq, Eq, Structural)]
pub enum FosField {
    PriceMinus3,
    VolumeMinus3,
    PriceMinus2,
    VolumeMinus2,
    PriceMinus1,
    VolumeMinus1,
    PricePlus1,
    VolumePlus1,
    PricePlus2,
    VolumePlus2,
    PricePlus3,
    VolumePlus3,
    BuyWait,
    SellWait,
}

impl FosField {
    /// The field a column number updates, if it is kept.
    pub open spec fn of_column(index: usize) -> Option<FosField> {
        if index == 4 {
            Some(FosField::PriceMinus3)
        } else if index == 5 {
            Some(FosField::VolumeMinus3)
        } else if index == 6 {
            Some(FosField::PriceMinus2)
        } else if index == 7 {
            Some(FosField::VolumeMinus2)
        } else if index == 8 {
            Some(FosField::PriceMinus1)
        } else if index == 9 {
            Some(FosField::VolumeMinus1)
        } else if index == 16 {
            Some(FosField::PricePlus1)
        } else if index == 17 {
            Some(FosField::VolumePlus1)
        } else if index == 18 {
            Some(FosField::PricePlus2)
        } else if index == 19 {
            Some(FosField::VolumePlus2)
        } else if index == 20 {
            Some(FosField::PricePlus3)
        } else if index == 21 {
            Some(FosField::VolumePlus3)
        } else if index == 26 {
            Some(FosField::BuyWait)
        } else if index == 27 {
            Some(FosField::SellWait)
        } else {
            None
        }
    }

    /// Whether the field holds a price, whose text is written with thousands separators.
    pub open spec fn holds_price(self) -> bool {
        match self {
            FosField::PriceMinus3 | FosField::PriceMinus2 | FosField::PriceMinus1 | FosField::PricePlus1
            | FosField::PricePlus2 | FosField::PricePlus3 => true,
            _ => false,
        }
    }

    /// The field a column number updates, if it is kept.
    pub fn from_column(index: usize) -> (r: Option<FosField>)
        ensures
            r == Self::of_column(index),
    {
        match index {
            4 => Some(FosField::PriceMinus3),
            5 => Some(FosField::VolumeMinus3),
            6 => Some(FosField::PriceMinus2),
            7 => Some(FosField::VolumeMinus2),
            8 => Some(FosField::PriceMinus1),
            9 => Some(FosField::VolumeMinus1),
            16 => Some(FosField::PricePlus1),
            17 => Some(FosField::VolumePlus1),
            18 => Some(FosField::PricePlus2),
            19 => Some(FosField::VolumePlus2),
            20 => Some(FosField::PricePlus3),
            21 => Some(FosField::VolumePlus3),
            26 => Some(FosField::BuyWait),
            27 => Some(FosField::SellWait),
            _ => None,
        }
    }

    /// Whether the field holds a price, whose text is written with thousands separators.
    pub fn is_price(&self) -> (r: bool)
        ensures
            r == self.holds_price(),
    {
        match self {
            FosField::PriceMinus3 | FosField::PriceMinus2 | FosField::PriceMinus1 | FosField::PricePlus1
            | FosField::PricePlus2 | FosField::PricePlus3 => true,
            _ => false,
        }
    }
}

/// The column number written after the symbol: `0` when it does not read as a number.
pub open spec fn column_of(rest: Seq<char>) -> usize {
    match parse_integer(rest, false, 0, usize::MAX as int) {
        Some(v) => v as usize,
        None => 0,
    }
}

/// Splits a cell key into its symbol (its first nine bytes) and column number. A key
/// shorter than nine bytes, or whose ninth byte ends inside a character, has no symbol.
pub fn fos_key(key: &str) -> (r: Option<(String, usize)>)
    ensures
        r is Some <==> key.len() >= 9 && is_char_boundary(key.spec_bytes(), 9),
        r matches Some(p) ==> p.0@ == decode_utf8(key.spec_bytes().subrange(0, 9))
            && p.1 == column_of(decode_utf8(key.spec_bytes().subrange(9, key.spec_bytes().len() as int))),
{
    if key.len() >= 9 && key.is_char_boundary(9) {
        let (symbol, rest) = key.split_at(9);
        proof {
            vstd::utf8::encode_utf8_decode_utf8(symbol@);
            vstd::utf8::encode_utf8_decode_utf8(rest@);
        }
        let index = match parse_usize(rest) {
            Some(i) => i,
            None => 0,
        };
        Some((symbol.to_owned(), index))
    } else {
        None
    }
}


/// `s` with every comma taken out.
pub open spec fn without_commas(s: Seq<char>) -> Seq<char>
    decreases s.len(),
{
    if s.len() == 0 {
        seq![]
    } else {
        without_commas(s.drop_last()) + if s.last() == ',' {
            seq![]
        } else {
            seq![s.last()]
        }
    }
}

/// The text of a price cell made ready to read as a number: white space at either end
/// and every thousands comma taken out.
pub fn price_text(text: &str) -> (r: String)
    ensures
        r@ == without_commas(trim_end(trim_start(text@))),
{
    let t = trim_text(text);
    let n = t.unicode_len();
    let mut out = String::new();
    let mut i: usize = 0;
    proof {
        assert(t@.take(0) =~= Seq::<char>::empty());
        assert(out@ =~= Seq::<char>::empty());
    }
    while i < n
        invariant
            n == t@.len(),
            i <= n,
            out@ == without_commas(t@.take(i as int)),
        decreases n - i,
    {
        let c = t.get_char(i);
        proof {
            assert(t@.take(i + 1).drop_last() =~= t@.take(i as int));
            assert(t@.take(i + 1).last() == c);
        }
        if c != ',' {
            let piece = t.substring_char(i, i + 1);
            let ghost before = out@;
            out.append(piece);
            proof {
                assert(piece@ =~= seq![c]);
                assert(out@ =~= before + seq![c]);
            }
        } else {
            proof {
                assert(without_commas(t@.take(i + 1)) =~= without_commas(t@.take(i as int)));
            }
        }
        i = i + 1;
    }
    proof {
        assert(t@.take(n as int) =~= t@);
    }
    out
}

} // verus!
