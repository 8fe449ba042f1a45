//! Rank/select data structures over sets of non-negative integers.
//!
//! A set `S` of integers drawn from a finite domain `[0, N)` is held in one of
//! several representations, all of which answer the same queries:
//!
//! * `size()` is `N`, the size of the domain;
//! * `count()` is the number of elements of `S`;
//! * `rank(v)` is the number of elements of `S` strictly below `v`;
//! * `select(i)` is the `i`-th smallest element of `S`, counting from 0.
//!
//! The queries are the traits [`set::ImpliedSet`], [`rank::Rank`],
//! [`select::Select`] and [`select::Select0`]. Every representation states
//! its answers over one mathematical model, the set of its members and the
//! counting function [`model::rank_of`]; what follows for all of them is
//! proved once, in [`laws`].
//!
//! The representations, from the leaves up:
//!
//! * [`words`]: rank and select within one 64-bit word;
//! * [`bitvec::BitVec`]: an append-only bit vector;
//! * [`intvec::IntVec`] and [`packed::PackedVec`]: vectors of integers of a
//!   fixed width, byte-aligned in six storage shapes or packed bit by bit;
//! * [`dense64::Dense64`]: a bitmap with a rank index and a select index;
//! * [`sparse::Sparse`]: the Elias-Fano representation of a sparse set;
//! * [`sorted::Sorted`], [`naive_dense::NaiveDense`] and
//!   [`naive_sparse::NaiveSparse`]: plain representations to compare with;
//! * [`ecode::EnumCodeSet`]: an enumerative code of the words with a given
//!   number of bits set;
//! * [`parens::BalencedPArens`]: balanced parentheses over a set with rank.
//!
//! [`persist`] fixes the byte layout in which the structures are kept.

use vstd::prelude::*;

pub mod bitvec;
pub mod dense64;
pub mod ecode;
pub mod error;
pub mod intvec;
pub mod laws;
pub mod model;
pub mod naive_dense;
pub mod naive_sparse;
pub mod packed;
pub mod parens;
pub mod persist;
pub mod rank;
pub mod select;
pub mod set;
pub mod sorted;
pub mod sparse;
pub mod words;
