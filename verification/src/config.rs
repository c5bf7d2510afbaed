//! Configuration defaults.
//!
//! The surrounding process looks configuration values up once, at
//! registration time; what arrives here is the looked-up value, if any, and
//! these functions decide what the setting is: the supplied value, or the
//! documented default.

use vstd::prelude::*;
use crate::num::{all_digits, digits_val, parse_digits};

verus! {

/// The default row-delimited source location, `data/sample.csv`.
pub open spec fn default_text_location() -> Seq<u8> {
    seq![100u8, 97u8, 116u8, 97u8, 47u8, 115u8, 97u8, 109u8, 112u8, 108u8, 101u8, 46u8, 99u8,
        115u8, 118u8]
}

/// The default columnar source location, `data/sample.col`.
pub open spec fn default_columnar_location() -> Seq<u8> {
    seq![100u8, 97u8, 116u8, 97u8, 47u8, 115u8, 97u8, 109u8, 112u8, 108u8, 101u8, 46u8, 99u8,
        111u8, 108u8]
}

/// The default API port.
pub open spec fn default_api_port() -> u16 {
    3000u16
}

/// The configured value, or the default when none is supplied.
pub open spec fn setting_of(v: Option<Seq<u8>>, default: Seq<u8>) -> Seq<u8> {
    match v {
        Some(s) => s,
        None => default,
    }
}

/// The row-delimited source location: the supplied value, or
/// `data/sample.csv`.
pub fn text_location_setting(v: Option<Vec<u8>>) -> (r: Vec<u8>)
    ensures
        r@ == setting_of(
            match v {
                Some(s) => Some(s@),
                None => None,
            },
            default_text_location(),
        ),
{
    match v {
        Some(s) => s,
        None => {
            let mut r: Vec<u8> = Vec::new();
            r.push(100);
            r.push(97);
            r.push(116);
            r.push(97);
            r.push(47);
            r.push(115);
            r.push(97);
            r.push(109);
            r.push(112);
            r.push(108);
            r.push(101);
            r.push(46);
            r.push(99);
            r.push(115);
            r.push(118);
            proof {
                assert(r@ =~= default_text_location());
            }
            r
        },
    }
}

/// The columnar source location: the supplied value, or `data/sample.col`.
pub fn columnar_location_setting(v: Option<Vec<u8>>) -> (r: Vec<u8>)
    ensures
        r@ == setting_of(
            match v {
                Some(s) => Some(s@),
                None => None,
            },
            default_columnar_location(),
        ),
{
    match v {
        Some(s) => s,
        None => {
            let mut r: Vec<u8> = Vec::new();
            r.push(100);
            r.push(97);
            r.push(116);
            r.push(97);
            r.push(47);
            r.push(115);
            r.push(97);
            r.push(109);
            r.push(112);
            r.push(108);
            r.push(101);
            r.push(46);
            r.push(99);
            r.push(111);
            r.push(108);
            proof {
                assert(r@ =~= default_columnar_location());
            }
            r
        },
    }
}

/// The API port a configured value denotes: a run of digits naming a
/// 16-bit port.
pub open spec fn port_of(v: Seq<u8>) -> Option<u16> {
    if v.len() >= 1 && all_digits(v) && digits_val(v) <= u16::MAX {
        Some(digits_val(v) as u16)
    } else {
        None
    }
}

/// The API port: the supplied value where it names a port, else the
/// default.
pub fn api_port_setting(v: Option<Vec<u8>>) -> (r: u16)
    ensures
        r == (match v {
            Some(s) => match port_of(s@) {
                Some(p) => p,
                None => default_api_port(),
            },
            None => default_api_port(),
        }),
{
    match v {
        Some(s) => {
            proof {
                assert(s@.subrange(0, s@.len() as int) =~= s@);
            }
            match parse_digits(&s, 0, s.len()) {
                Some(p) => if p <= 65535 {
                    p as u16
                } else {
                    3000
                },
                None => 3000,
            }
        },
        None => 3000,
    }
}

} // verus!
