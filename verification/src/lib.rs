//! Verified OCaml marshaling (the `output_value` wire format) over an explicit
//! model of the OCaml heap, together with the plain-value logic of the hackc
//! declaration/facts bridge.
#![allow(non_snake_case)]

use vstd::prelude::*;

pub mod intext;
pub mod encode;
pub mod decode;
pub mod heap;
pub mod position_table;
pub mod machine;
pub mod termination;
pub mod marshal;
pub mod facts;
