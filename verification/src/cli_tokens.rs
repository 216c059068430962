//! Token tables for the command-line parser: each accepted flag and
//! keyword as a byte sequence, stated once in spec and built once for
//! executable comparison.

use vstd::prelude::*;

verus! {

/// The token `-d` as bytes.
#[verifier::opaque]
pub open spec fn tok_dash_d_prefix() -> Seq<u8> {
    seq![45u8, 100u8]
}

pub(crate) fn lit_dash_d_prefix() -> (r: Vec<u8>)
    ensures
        r@ == tok_dash_d_prefix(),
{
    let mut v: Vec<u8> = Vec::new();
    v.push(45);
    v.push(100);
    proof {
        reveal(tok_dash_d_prefix);
        assert(v@ =~= tok_dash_d_prefix());
    }
    v
}

/// The token `--input=` as bytes.
#[verifier::opaque]
pub open spec fn tok_eq_input() -> Seq<u8> {
    seq![45u8, 45u8, 105u8, 110u8, 112u8, 117u8, 116u8, 61u8]
}

pub(crate) fn lit_eq_input() -> (r: Vec<u8>)
    ensures
        r@ == tok_eq_input(),
{
    let mut v: Vec<u8> = Vec::new();
    v.push(45);
    v.push(45);
    v.push(105);
    v.push(110);
    v.push(112);
    v.push(117);
    v.push(116);
    v.push(61);
    proof {
        reveal(tok_eq_input);
        assert(v@ =~= tok_eq_input());
    }
    v
}

/// The token `--output=` as bytes.
#[verifier::opaque]
pub open spec fn tok_eq_output() -> Seq<u8> {
    seq![45u8, 45u8, 111u8, 117u8, 116u8, 112u8, 117u8, 116u8, 61u8]
}

pub(crate) fn lit_eq_output() -> (r: Vec<u8>)
    ensures
        r@ == tok_eq_output(),
{
    let mut v: Vec<u8> = Vec::new();
    v.push(45);
    v.push(45);
    v.push(111);
    v.push(117);
    v.push(116);
    v.push(112);
    v.push(117);
    v.push(116);
    v.push(61);
    proof {
        reveal(tok_eq_output);
        assert(v@ =~= tok_eq_output());
    }
    v
}

/// The token `--delimiter=` as bytes.
#[verifier::opaque]
pub open spec fn tok_eq_delimiter() -> Seq<u8> {
    seq![45u8, 45u8, 100u8, 101u8, 108u8, 105u8, 109u8, 105u8, 116u8, 101u8, 114u8, 61u8]
}

pub(crate) fn lit_eq_delimiter() -> (r: Vec<u8>)
    ensures
        r@ == tok_eq_delimiter(),
{
    let mut v: Vec<u8> = Vec::new();
    v.push(45);
    v.push(45);
    v.push(100);
    v.push(101);
    v.push(108);
    v.push(105);
    v.push(109);
    v.push(105);
    v.push(116);
    v.push(101);
    v.push(114);
    v.push(61);
    proof {
        reveal(tok_eq_delimiter);
        assert(v@ =~= tok_eq_delimiter());
    }
    v
}

/// The token `--join=` as bytes.
#[verifier::opaque]
pub open spec fn tok_eq_join() -> Seq<u8> {
    seq![45u8, 45u8, 106u8, 111u8, 105u8, 110u8, 61u8]
}

pub(crate) fn lit_eq_join() -> (r: Vec<u8>)
    ensures
        r@ == tok_eq_join(),
{
    let mut v: Vec<u8> = Vec::new();
    v.push(45);
    v.push(45);
    v.push(106);
    v.push(111);
    v.push(105);
    v.push(110);
    v.push(61);
    proof {
        reveal(tok_eq_join);
        assert(v@ =~= tok_eq_join());
    }
    v
}

/// The token `--placeholder=` as bytes.
#[verifier::opaque]
pub open spec fn tok_eq_placeholder() -> Seq<u8> {
    seq![45u8, 45u8, 112u8, 108u8, 97u8, 99u8, 101u8, 104u8, 111u8, 108u8, 100u8, 101u8, 114u8, 61u8]
}

pub(crate) fn lit_eq_placeholder() -> (r: Vec<u8>)
    ensures
        r@ == tok_eq_placeholder(),
{
    let mut v: Vec<u8> = Vec::new();
    v.push(45);
    v.push(45);
    v.push(112);
    v.push(108);
    v.push(97);
    v.push(99);
    v.push(101);
    v.push(104);
    v.push(111);
    v.push(108);
    v.push(100);
    v.push(101);
    v.push(114);
    v.push(61);
    proof {
        reveal(tok_eq_placeholder);
        assert(v@ =~= tok_eq_placeholder());
    }
    v
}

/// The token `--align=` as bytes.
#[verifier::opaque]
pub open spec fn tok_eq_align() -> Seq<u8> {
    seq![45u8, 45u8, 97u8, 108u8, 105u8, 103u8, 110u8, 61u8]
}

pub(crate) fn lit_eq_align() -> (r: Vec<u8>)
    ensures
        r@ == tok_eq_align(),
{
    let mut v: Vec<u8> = Vec::new();
    v.push(45);
    v.push(45);
    v.push(97);
    v.push(108);
    v.push(105);
    v.push(103);
    v.push(110);
    v.push(61);
    proof {
        reveal(tok_eq_align);
        assert(v@ =~= tok_eq_align());
    }
    v
}

/// The token `--input` as bytes.
#[verifier::opaque]
pub open spec fn tok_w_input() -> Seq<u8> {
    seq![45u8, 45u8, 105u8, 110u8, 112u8, 117u8, 116u8]
}

pub(crate) fn lit_w_input() -> (r: Vec<u8>)
    ensures
        r@ == tok_w_input(),
{
    let mut v: Vec<u8> = Vec::new();
    v.push(45);
    v.push(45);
    v.push(105);
    v.push(110);
    v.push(112);
    v.push(117);
    v.push(116);
    proof {
        reveal(tok_w_input);
        assert(v@ =~= tok_w_input());
    }
    v
}

/// The token `--output` as bytes.
#[verifier::opaque]
pub open spec fn tok_w_output() -> Seq<u8> {
    seq![45u8, 45u8, 111u8, 117u8, 116u8, 112u8, 117u8, 116u8]
}

pub(crate) fn lit_w_output() -> (r: Vec<u8>)
    ensures
        r@ == tok_w_output(),
{
    let mut v: Vec<u8> = Vec::new();
    v.push(45);
    v.push(45);
    v.push(111);
    v.push(117);
    v.push(116);
    v.push(112);
    v.push(117);
    v.push(116);
    proof {
        reveal(tok_w_output);
        assert(v@ =~= tok_w_output());
    }
    v
}

/// The token `--delimiter` as bytes.
#[verifier::opaque]
pub open spec fn tok_w_delimiter() -> Seq<u8> {
    seq![45u8, 45u8, 100u8, 101u8, 108u8, 105u8, 109u8, 105u8, 116u8, 101u8, 114u8]
}

pub(crate) fn lit_w_delimiter() -> (r: Vec<u8>)
    ensures
        r@ == tok_w_delimiter(),
{
    let mut v: Vec<u8> = Vec::new();
    v.push(45);
    v.push(45);
    v.push(100);
    v.push(101);
    v.push(108);
    v.push(105);
    v.push(109);
    v.push(105);
    v.push(116);
    v.push(101);
    v.push(114);
    proof {
        reveal(tok_w_delimiter);
        assert(v@ =~= tok_w_delimiter());
    }
    v
}

/// The token `--join` as bytes.
#[verifier::opaque]
pub open spec fn tok_w_join() -> Seq<u8> {
    seq![45u8, 45u8, 106u8, 111u8, 105u8, 110u8]
}

pub(crate) fn lit_w_join() -> (r: Vec<u8>)
    ensures
        r@ == tok_w_join(),
{
    let mut v: Vec<u8> = Vec::new();
    v.push(45);
    v.push(45);
    v.push(106);
    v.push(111);
    v.push(105);
    v.push(110);
    proof {
        reveal(tok_w_join);
        assert(v@ =~= tok_w_join());
    }
    v
}

/// The token `--placeholder` as bytes.
#[verifier::opaque]
pub open spec fn tok_w_placeholder() -> Seq<u8> {
    seq![45u8, 45u8, 112u8, 108u8, 97u8, 99u8, 101u8, 104u8, 111u8, 108u8, 100u8, 101u8, 114u8]
}

pub(crate) fn lit_w_placeholder() -> (r: Vec<u8>)
    ensures
        r@ == tok_w_placeholder(),
{
    let mut v: Vec<u8> = Vec::new();
    v.push(45);
    v.push(45);
    v.push(112);
    v.push(108);
    v.push(97);
    v.push(99);
    v.push(101);
    v.push(104);
    v.push(111);
    v.push(108);
    v.push(100);
    v.push(101);
    v.push(114);
    proof {
        reveal(tok_w_placeholder);
        assert(v@ =~= tok_w_placeholder());
    }
    v
}

/// The token `--align` as bytes.
#[verifier::opaque]
pub open spec fn tok_w_align() -> Seq<u8> {
    seq![45u8, 45u8, 97u8, 108u8, 105u8, 103u8, 110u8]
}

pub(crate) fn lit_w_align() -> (r: Vec<u8>)
    ensures
        r@ == tok_w_align(),
{
    let mut v: Vec<u8> = Vec::new();
    v.push(45);
    v.push(45);
    v.push(97);
    v.push(108);
    v.push(105);
    v.push(103);
    v.push(110);
    proof {
        reveal(tok_w_align);
        assert(v@ =~= tok_w_align());
    }
    v
}

/// The token `--version` as bytes.
#[verifier::opaque]
pub open spec fn tok_w_version() -> Seq<u8> {
    seq![45u8, 45u8, 118u8, 101u8, 114u8, 115u8, 105u8, 111u8, 110u8]
}

pub(crate) fn lit_w_version() -> (r: Vec<u8>)
    ensures
        r@ == tok_w_version(),
{
    let mut v: Vec<u8> = Vec::new();
    v.push(45);
    v.push(45);
    v.push(118);
    v.push(101);
    v.push(114);
    v.push(115);
    v.push(105);
    v.push(111);
    v.push(110);
    proof {
        reveal(tok_w_version);
        assert(v@ =~= tok_w_version());
    }
    v
}

/// The token `-v` as bytes.
#[verifier::opaque]
pub open spec fn tok_s_v() -> Seq<u8> {
    seq![45u8, 118u8]
}

pub(crate) fn lit_s_v() -> (r: Vec<u8>)
    ensures
        r@ == tok_s_v(),
{
    let mut v: Vec<u8> = Vec::new();
    v.push(45);
    v.push(118);
    proof {
        reveal(tok_s_v);
        assert(v@ =~= tok_s_v());
    }
    v
}

/// The token `--help` as bytes.
#[verifier::opaque]
pub open spec fn tok_w_help() -> Seq<u8> {
    seq![45u8, 45u8, 104u8, 101u8, 108u8, 112u8]
}

pub(crate) fn lit_w_help() -> (r: Vec<u8>)
    ensures
        r@ == tok_w_help(),
{
    let mut v: Vec<u8> = Vec::new();
    v.push(45);
    v.push(45);
    v.push(104);
    v.push(101);
    v.push(108);
    v.push(112);
    proof {
        reveal(tok_w_help);
        assert(v@ =~= tok_w_help());
    }
    v
}

/// The token `-h` as bytes.
#[verifier::opaque]
pub open spec fn tok_s_h() -> Seq<u8> {
    seq![45u8, 104u8]
}

pub(crate) fn lit_s_h() -> (r: Vec<u8>)
    ensures
        r@ == tok_s_h(),
{
    let mut v: Vec<u8> = Vec::new();
    v.push(45);
    v.push(104);
    proof {
        reveal(tok_s_h);
        assert(v@ =~= tok_s_h());
    }
    v
}

/// The token `--per-line` as bytes.
#[verifier::opaque]
pub open spec fn tok_w_per_line() -> Seq<u8> {
    seq![45u8, 45u8, 112u8, 101u8, 114u8, 45u8, 108u8, 105u8, 110u8, 101u8]
}

pub(crate) fn lit_w_per_line() -> (r: Vec<u8>)
    ensures
        r@ == tok_w_per_line(),
{
    let mut v: Vec<u8> = Vec::new();
    v.push(45);
    v.push(45);
    v.push(112);
    v.push(101);
    v.push(114);
    v.push(45);
    v.push(108);
    v.push(105);
    v.push(110);
    v.push(101);
    proof {
        reveal(tok_w_per_line);
        assert(v@ =~= tok_w_per_line());
    }
    v
}

/// The token `--whole-string` as bytes.
#[verifier::opaque]
pub open spec fn tok_w_whole_string() -> Seq<u8> {
    seq![45u8, 45u8, 119u8, 104u8, 111u8, 108u8, 101u8, 45u8, 115u8, 116u8, 114u8, 105u8, 110u8, 103u8]
}

pub(crate) fn lit_w_whole_string() -> (r: Vec<u8>)
    ensures
        r@ == tok_w_whole_string(),
{
    let mut v: Vec<u8> = Vec::new();
    v.push(45);
    v.push(45);
    v.push(119);
    v.push(104);
    v.push(111);
    v.push(108);
    v.push(101);
    v.push(45);
    v.push(115);
    v.push(116);
    v.push(114);
    v.push(105);
    v.push(110);
    v.push(103);
    proof {
        reveal(tok_w_whole_string);
        assert(v@ =~= tok_w_whole_string());
    }
    v
}

/// The token `-w` as bytes.
#[verifier::opaque]
pub open spec fn tok_s_w() -> Seq<u8> {
    seq![45u8, 119u8]
}

pub(crate) fn lit_s_w() -> (r: Vec<u8>)
    ensures
        r@ == tok_s_w(),
{
    let mut v: Vec<u8> = Vec::new();
    v.push(45);
    v.push(119);
    proof {
        reveal(tok_s_w);
        assert(v@ =~= tok_s_w());
    }
    v
}

/// The token `--zero-terminated` as bytes.
#[verifier::opaque]
pub open spec fn tok_w_zero_terminated() -> Seq<u8> {
    seq![45u8, 45u8, 122u8, 101u8, 114u8, 111u8, 45u8, 116u8, 101u8, 114u8, 109u8, 105u8, 110u8, 97u8, 116u8, 101u8, 100u8]
}

pub(crate) fn lit_w_zero_terminated() -> (r: Vec<u8>)
    ensures
        r@ == tok_w_zero_terminated(),
{
    let mut v: Vec<u8> = Vec::new();
    v.push(45);
    v.push(45);
    v.push(122);
    v.push(101);
    v.push(114);
    v.push(111);
    v.push(45);
    v.push(116);
    v.push(101);
    v.push(114);
    v.push(109);
    v.push(105);
    v.push(110);
    v.push(97);
    v.push(116);
    v.push(101);
    v.push(100);
    proof {
        reveal(tok_w_zero_terminated);
        assert(v@ =~= tok_w_zero_terminated());
    }
    v
}

/// The token `-z` as bytes.
#[verifier::opaque]
pub open spec fn tok_s_z() -> Seq<u8> {
    seq![45u8, 122u8]
}

pub(crate) fn lit_s_z() -> (r: Vec<u8>)
    ensures
        r@ == tok_s_z(),
{
    let mut v: Vec<u8> = Vec::new();
    v.push(45);
    v.push(122);
    proof {
        reveal(tok_s_z);
        assert(v@ =~= tok_s_z());
    }
    v
}

/// The token `--bytes` as bytes.
#[verifier::opaque]
pub open spec fn tok_w_bytes() -> Seq<u8> {
    seq![45u8, 45u8, 98u8, 121u8, 116u8, 101u8, 115u8]
}

pub(crate) fn lit_w_bytes() -> (r: Vec<u8>)
    ensures
        r@ == tok_w_bytes(),
{
    let mut v: Vec<u8> = Vec::new();
    v.push(45);
    v.push(45);
    v.push(98);
    v.push(121);
    v.push(116);
    v.push(101);
    v.push(115);
    proof {
        reveal(tok_w_bytes);
        assert(v@ =~= tok_w_bytes());
    }
    v
}

/// The token `-b` as bytes.
#[verifier::opaque]
pub open spec fn tok_s_b() -> Seq<u8> {
    seq![45u8, 98u8]
}

pub(crate) fn lit_s_b() -> (r: Vec<u8>)
    ensures
        r@ == tok_s_b(),
{
    let mut v: Vec<u8> = Vec::new();
    v.push(45);
    v.push(98);
    proof {
        reveal(tok_s_b);
        assert(v@ =~= tok_s_b());
    }
    v
}

/// The token `--characters` as bytes.
#[verifier::opaque]
pub open spec fn tok_w_characters() -> Seq<u8> {
    seq![45u8, 45u8, 99u8, 104u8, 97u8, 114u8, 97u8, 99u8, 116u8, 101u8, 114u8, 115u8]
}

pub(crate) fn lit_w_characters() -> (r: Vec<u8>)
    ensures
        r@ == tok_w_characters(),
{
    let mut v: Vec<u8> = Vec::new();
    v.push(45);
    v.push(45);
    v.push(99);
    v.push(104);
    v.push(97);
    v.push(114);
    v.push(97);
    v.push(99);
    v.push(116);
    v.push(101);
    v.push(114);
    v.push(115);
    proof {
        reveal(tok_w_characters);
        assert(v@ =~= tok_w_characters());
    }
    v
}

/// The token `-c` as bytes.
#[verifier::opaque]
pub open spec fn tok_s_c() -> Seq<u8> {
    seq![45u8, 99u8]
}

pub(crate) fn lit_s_c() -> (r: Vec<u8>)
    ensures
        r@ == tok_s_c(),
{
    let mut v: Vec<u8> = Vec::new();
    v.push(45);
    v.push(99);
    proof {
        reveal(tok_s_c);
        assert(v@ =~= tok_s_c());
    }
    v
}

/// The token `--fields` as bytes.
#[verifier::opaque]
pub open spec fn tok_w_fields() -> Seq<u8> {
    seq![45u8, 45u8, 102u8, 105u8, 101u8, 108u8, 100u8, 115u8]
}

pub(crate) fn lit_w_fields() -> (r: Vec<u8>)
    ensures
        r@ == tok_w_fields(),
{
    let mut v: Vec<u8> = Vec::new();
    v.push(45);
    v.push(45);
    v.push(102);
    v.push(105);
    v.push(101);
    v.push(108);
    v.push(100);
    v.push(115);
    proof {
        reveal(tok_w_fields);
        assert(v@ =~= tok_w_fields());
    }
    v
}

/// The token `-f` as bytes.
#[verifier::opaque]
pub open spec fn tok_s_f() -> Seq<u8> {
    seq![45u8, 102u8]
}

pub(crate) fn lit_s_f() -> (r: Vec<u8>)
    ensures
        r@ == tok_s_f(),
{
    let mut v: Vec<u8> = Vec::new();
    v.push(45);
    v.push(102);
    proof {
        reveal(tok_s_f);
        assert(v@ =~= tok_s_f());
    }
    v
}

/// The token `-i` as bytes.
#[verifier::opaque]
pub open spec fn tok_s_i() -> Seq<u8> {
    seq![45u8, 105u8]
}

pub(crate) fn lit_s_i() -> (r: Vec<u8>)
    ensures
        r@ == tok_s_i(),
{
    let mut v: Vec<u8> = Vec::new();
    v.push(45);
    v.push(105);
    proof {
        reveal(tok_s_i);
        assert(v@ =~= tok_s_i());
    }
    v
}

/// The token `-o` as bytes.
#[verifier::opaque]
pub open spec fn tok_s_o() -> Seq<u8> {
    seq![45u8, 111u8]
}

pub(crate) fn lit_s_o() -> (r: Vec<u8>)
    ensures
        r@ == tok_s_o(),
{
    let mut v: Vec<u8> = Vec::new();
    v.push(45);
    v.push(111);
    proof {
        reveal(tok_s_o);
        assert(v@ =~= tok_s_o());
    }
    v
}

/// The token `-d` as bytes.
#[verifier::opaque]
pub open spec fn tok_s_d() -> Seq<u8> {
    seq![45u8, 100u8]
}

pub(crate) fn lit_s_d() -> (r: Vec<u8>)
    ensures
        r@ == tok_s_d(),
{
    let mut v: Vec<u8> = Vec::new();
    v.push(45);
    v.push(100);
    proof {
        reveal(tok_s_d);
        assert(v@ =~= tok_s_d());
    }
    v
}

/// The token `-j` as bytes.
#[verifier::opaque]
pub open spec fn tok_s_j() -> Seq<u8> {
    seq![45u8, 106u8]
}

pub(crate) fn lit_s_j() -> (r: Vec<u8>)
    ensures
        r@ == tok_s_j(),
{
    let mut v: Vec<u8> = Vec::new();
    v.push(45);
    v.push(106);
    proof {
        reveal(tok_s_j);
        assert(v@ =~= tok_s_j());
    }
    v
}

/// The token `-p` as bytes.
#[verifier::opaque]
pub open spec fn tok_s_p() -> Seq<u8> {
    seq![45u8, 112u8]
}

pub(crate) fn lit_s_p() -> (r: Vec<u8>)
    ensures
        r@ == tok_s_p(),
{
    let mut v: Vec<u8> = Vec::new();
    v.push(45);
    v.push(112);
    proof {
        reveal(tok_s_p);
        assert(v@ =~= tok_s_p());
    }
    v
}

/// The token `-a` as bytes.
#[verifier::opaque]
pub open spec fn tok_s_a() -> Seq<u8> {
    seq![45u8, 97u8]
}

pub(crate) fn lit_s_a() -> (r: Vec<u8>)
    ensures
        r@ == tok_s_a(),
{
    let mut v: Vec<u8> = Vec::new();
    v.push(45);
    v.push(97);
    proof {
        reveal(tok_s_a);
        assert(v@ =~= tok_s_a());
    }
    v
}

/// The token `--skip-empty` as bytes.
#[verifier::opaque]
pub open spec fn tok_w_skip_empty() -> Seq<u8> {
    seq![45u8, 45u8, 115u8, 107u8, 105u8, 112u8, 45u8, 101u8, 109u8, 112u8, 116u8, 121u8]
}

pub(crate) fn lit_w_skip_empty() -> (r: Vec<u8>)
    ensures
        r@ == tok_w_skip_empty(),
{
    let mut v: Vec<u8> = Vec::new();
    v.push(45);
    v.push(45);
    v.push(115);
    v.push(107);
    v.push(105);
    v.push(112);
    v.push(45);
    v.push(101);
    v.push(109);
    v.push(112);
    v.push(116);
    v.push(121);
    proof {
        reveal(tok_w_skip_empty);
        assert(v@ =~= tok_w_skip_empty());
    }
    v
}

/// The token `-e` as bytes.
#[verifier::opaque]
pub open spec fn tok_s_e() -> Seq<u8> {
    seq![45u8, 101u8]
}

pub(crate) fn lit_s_e() -> (r: Vec<u8>)
    ensures
        r@ == tok_s_e(),
{
    let mut v: Vec<u8> = Vec::new();
    v.push(45);
    v.push(101);
    proof {
        reveal(tok_s_e);
        assert(v@ =~= tok_s_e());
    }
    v
}

/// The token `--no-skip-empty` as bytes.
#[verifier::opaque]
pub open spec fn tok_w_no_skip_empty() -> Seq<u8> {
    seq![45u8, 45u8, 110u8, 111u8, 45u8, 115u8, 107u8, 105u8, 112u8, 45u8, 101u8, 109u8, 112u8, 116u8, 121u8]
}

pub(crate) fn lit_w_no_skip_empty() -> (r: Vec<u8>)
    ensures
        r@ == tok_w_no_skip_empty(),
{
    let mut v: Vec<u8> = Vec::new();
    v.push(45);
    v.push(45);
    v.push(110);
    v.push(111);
    v.push(45);
    v.push(115);
    v.push(107);
    v.push(105);
    v.push(112);
    v.push(45);
    v.push(101);
    v.push(109);
    v.push(112);
    v.push(116);
    v.push(121);
    proof {
        reveal(tok_w_no_skip_empty);
        assert(v@ =~= tok_w_no_skip_empty());
    }
    v
}

/// The token `-E` as bytes.
#[verifier::opaque]
pub open spec fn tok_s_ee() -> Seq<u8> {
    seq![45u8, 69u8]
}

pub(crate) fn lit_s_ee() -> (r: Vec<u8>)
    ensures
        r@ == tok_s_ee(),
{
    let mut v: Vec<u8> = Vec::new();
    v.push(45);
    v.push(69);
    proof {
        reveal(tok_s_ee);
        assert(v@ =~= tok_s_ee());
    }
    v
}

/// The token `--count` as bytes.
#[verifier::opaque]
pub open spec fn tok_w_count() -> Seq<u8> {
    seq![45u8, 45u8, 99u8, 111u8, 117u8, 110u8, 116u8]
}

pub(crate) fn lit_w_count() -> (r: Vec<u8>)
    ensures
        r@ == tok_w_count(),
{
    let mut v: Vec<u8> = Vec::new();
    v.push(45);
    v.push(45);
    v.push(99);
    v.push(111);
    v.push(117);
    v.push(110);
    v.push(116);
    proof {
        reveal(tok_w_count);
        assert(v@ =~= tok_w_count());
    }
    v
}

/// The token `--invert` as bytes.
#[verifier::opaque]
pub open spec fn tok_w_invert() -> Seq<u8> {
    seq![45u8, 45u8, 105u8, 110u8, 118u8, 101u8, 114u8, 116u8]
}

pub(crate) fn lit_w_invert() -> (r: Vec<u8>)
    ensures
        r@ == tok_w_invert(),
{
    let mut v: Vec<u8> = Vec::new();
    v.push(45);
    v.push(45);
    v.push(105);
    v.push(110);
    v.push(118);
    v.push(101);
    v.push(114);
    v.push(116);
    proof {
        reveal(tok_w_invert);
        assert(v@ =~= tok_w_invert());
    }
    v
}

/// The token `--strict` as bytes.
#[verifier::opaque]
pub open spec fn tok_w_strict() -> Seq<u8> {
    seq![45u8, 45u8, 115u8, 116u8, 114u8, 105u8, 99u8, 116u8]
}

pub(crate) fn lit_w_strict() -> (r: Vec<u8>)
    ensures
        r@ == tok_w_strict(),
{
    let mut v: Vec<u8> = Vec::new();
    v.push(45);
    v.push(45);
    v.push(115);
    v.push(116);
    v.push(114);
    v.push(105);
    v.push(99);
    v.push(116);
    proof {
        reveal(tok_w_strict);
        assert(v@ =~= tok_w_strict());
    }
    v
}

/// The token `--no-strict` as bytes.
#[verifier::opaque]
pub open spec fn tok_w_no_strict() -> Seq<u8> {
    seq![45u8, 45u8, 110u8, 111u8, 45u8, 115u8, 116u8, 114u8, 105u8, 99u8, 116u8]
}

pub(crate) fn lit_w_no_strict() -> (r: Vec<u8>)
    ensures
        r@ == tok_w_no_strict(),
{
    let mut v: Vec<u8> = Vec::new();
    v.push(45);
    v.push(45);
    v.push(110);
    v.push(111);
    v.push(45);
    v.push(115);
    v.push(116);
    v.push(114);
    v.push(105);
    v.push(99);
    v.push(116);
    proof {
        reveal(tok_w_no_strict);
        assert(v@ =~= tok_w_no_strict());
    }
    v
}

/// The token `--strict-bounds` as bytes.
#[verifier::opaque]
pub open spec fn tok_w_strict_bounds() -> Seq<u8> {
    seq![45u8, 45u8, 115u8, 116u8, 114u8, 105u8, 99u8, 116u8, 45u8, 98u8, 111u8, 117u8, 110u8, 100u8, 115u8]
}

pub(crate) fn lit_w_strict_bounds() -> (r: Vec<u8>)
    ensures
        r@ == tok_w_strict_bounds(),
{
    let mut v: Vec<u8> = Vec::new();
    v.push(45);
    v.push(45);
    v.push(115);
    v.push(116);
    v.push(114);
    v.push(105);
    v.push(99);
    v.push(116);
    v.push(45);
    v.push(98);
    v.push(111);
    v.push(117);
    v.push(110);
    v.push(100);
    v.push(115);
    proof {
        reveal(tok_w_strict_bounds);
        assert(v@ =~= tok_w_strict_bounds());
    }
    v
}

/// The token `--no-strict-bounds` as bytes.
#[verifier::opaque]
pub open spec fn tok_w_no_strict_bounds() -> Seq<u8> {
    seq![45u8, 45u8, 110u8, 111u8, 45u8, 115u8, 116u8, 114u8, 105u8, 99u8, 116u8, 45u8, 98u8, 111u8, 117u8, 110u8, 100u8, 115u8]
}

pub(crate) fn lit_w_no_strict_bounds() -> (r: Vec<u8>)
    ensures
        r@ == tok_w_no_strict_bounds(),
{
    let mut v: Vec<u8> = Vec::new();
    v.push(45);
    v.push(45);
    v.push(110);
    v.push(111);
    v.push(45);
    v.push(115);
    v.push(116);
    v.push(114);
    v.push(105);
    v.push(99);
    v.push(116);
    v.push(45);
    v.push(98);
    v.push(111);
    v.push(117);
    v.push(110);
    v.push(100);
    v.push(115);
    proof {
        reveal(tok_w_no_strict_bounds);
        assert(v@ =~= tok_w_no_strict_bounds());
    }
    v
}

/// The token `--strict-return` as bytes.
#[verifier::opaque]
pub open spec fn tok_w_strict_return() -> Seq<u8> {
    seq![45u8, 45u8, 115u8, 116u8, 114u8, 105u8, 99u8, 116u8, 45u8, 114u8, 101u8, 116u8, 117u8, 114u8, 110u8]
}

pub(crate) fn lit_w_strict_return() -> (r: Vec<u8>)
    ensures
        r@ == tok_w_strict_return(),
{
    let mut v: Vec<u8> = Vec::new();
    v.push(45);
    v.push(45);
    v.push(115);
    v.push(116);
    v.push(114);
    v.push(105);
    v.push(99);
    v.push(116);
    v.push(45);
    v.push(114);
    v.push(101);
    v.push(116);
    v.push(117);
    v.push(114);
    v.push(110);
    proof {
        reveal(tok_w_strict_return);
        assert(v@ =~= tok_w_strict_return());
    }
    v
}

/// The token `--no-strict-return` as bytes.
#[verifier::opaque]
pub open spec fn tok_w_no_strict_return() -> Seq<u8> {
    seq![45u8, 45u8, 110u8, 111u8, 45u8, 115u8, 116u8, 114u8, 105u8, 99u8, 116u8, 45u8, 114u8, 101u8, 116u8, 117u8, 114u8, 110u8]
}

pub(crate) fn lit_w_no_strict_return() -> (r: Vec<u8>)
    ensures
        r@ == tok_w_no_strict_return(),
{
    let mut v: Vec<u8> = Vec::new();
    v.push(45);
    v.push(45);
    v.push(110);
    v.push(111);
    v.push(45);
    v.push(115);
    v.push(116);
    v.push(114);
    v.push(105);
    v.push(99);
    v.push(116);
    v.push(45);
    v.push(114);
    v.push(101);
    v.push(116);
    v.push(117);
    v.push(114);
    v.push(110);
    proof {
        reveal(tok_w_no_strict_return);
        assert(v@ =~= tok_w_no_strict_return());
    }
    v
}

/// The token `--strict-range-order` as bytes.
#[verifier::opaque]
pub open spec fn tok_w_strict_range_order() -> Seq<u8> {
    seq![45u8, 45u8, 115u8, 116u8, 114u8, 105u8, 99u8, 116u8, 45u8, 114u8, 97u8, 110u8, 103u8, 101u8, 45u8, 111u8, 114u8, 100u8, 101u8, 114u8]
}

pub(crate) fn lit_w_strict_range_order() -> (r: Vec<u8>)
    ensures
        r@ == tok_w_strict_range_order(),
{
    let mut v: Vec<u8> = Vec::new();
    v.push(45);
    v.push(45);
    v.push(115);
    v.push(116);
    v.push(114);
    v.push(105);
    v.push(99);
    v.push(116);
    v.push(45);
    v.push(114);
    v.push(97);
    v.push(110);
    v.push(103);
    v.push(101);
    v.push(45);
    v.push(111);
    v.push(114);
    v.push(100);
    v.push(101);
    v.push(114);
    proof {
        reveal(tok_w_strict_range_order);
        assert(v@ =~= tok_w_strict_range_order());
    }
    v
}

/// The token `--no-strict-range-order` as bytes.
#[verifier::opaque]
pub open spec fn tok_w_no_strict_range_order() -> Seq<u8> {
    seq![45u8, 45u8, 110u8, 111u8, 45u8, 115u8, 116u8, 114u8, 105u8, 99u8, 116u8, 45u8, 114u8, 97u8, 110u8, 103u8, 101u8, 45u8, 111u8, 114u8, 100u8, 101u8, 114u8]
}

pub(crate) fn lit_w_no_strict_range_order() -> (r: Vec<u8>)
    ensures
        r@ == tok_w_no_strict_range_order(),
{
    let mut v: Vec<u8> = Vec::new();
    v.push(45);
    v.push(45);
    v.push(110);
    v.push(111);
    v.push(45);
    v.push(115);
    v.push(116);
    v.push(114);
    v.push(105);
    v.push(99);
    v.push(116);
    v.push(45);
    v.push(114);
    v.push(97);
    v.push(110);
    v.push(103);
    v.push(101);
    v.push(45);
    v.push(111);
    v.push(114);
    v.push(100);
    v.push(101);
    v.push(114);
    proof {
        reveal(tok_w_no_strict_range_order);
        assert(v@ =~= tok_w_no_strict_range_order());
    }
    v
}

/// The token `--strict-utf8` as bytes.
#[verifier::opaque]
pub open spec fn tok_w_strict_utf8() -> Seq<u8> {
    seq![45u8, 45u8, 115u8, 116u8, 114u8, 105u8, 99u8, 116u8, 45u8, 117u8, 116u8, 102u8, 56u8]
}

pub(crate) fn lit_w_strict_utf8() -> (r: Vec<u8>)
    ensures
        r@ == tok_w_strict_utf8(),
{
    let mut v: Vec<u8> = Vec::new();
    v.push(45);
    v.push(45);
    v.push(115);
    v.push(116);
    v.push(114);
    v.push(105);
    v.push(99);
    v.push(116);
    v.push(45);
    v.push(117);
    v.push(116);
    v.push(102);
    v.push(56);
    proof {
        reveal(tok_w_strict_utf8);
        assert(v@ =~= tok_w_strict_utf8());
    }
    v
}

/// The token `--no-strict-utf8` as bytes.
#[verifier::opaque]
pub open spec fn tok_w_no_strict_utf8() -> Seq<u8> {
    seq![45u8, 45u8, 110u8, 111u8, 45u8, 115u8, 116u8, 114u8, 105u8, 99u8, 116u8, 45u8, 117u8, 116u8, 102u8, 56u8]
}

pub(crate) fn lit_w_no_strict_utf8() -> (r: Vec<u8>)
    ensures
        r@ == tok_w_no_strict_utf8(),
{
    let mut v: Vec<u8> = Vec::new();
    v.push(45);
    v.push(45);
    v.push(110);
    v.push(111);
    v.push(45);
    v.push(115);
    v.push(116);
    v.push(114);
    v.push(105);
    v.push(99);
    v.push(116);
    v.push(45);
    v.push(117);
    v.push(116);
    v.push(102);
    v.push(56);
    proof {
        reveal(tok_w_no_strict_utf8);
        assert(v@ =~= tok_w_no_strict_utf8());
    }
    v
}

/// The token `left` as bytes.
#[verifier::opaque]
pub open spec fn tok_k_left() -> Seq<u8> {
    seq![108u8, 101u8, 102u8, 116u8]
}

pub(crate) fn lit_k_left() -> (r: Vec<u8>)
    ensures
        r@ == tok_k_left(),
{
    let mut v: Vec<u8> = Vec::new();
    v.push(108);
    v.push(101);
    v.push(102);
    v.push(116);
    proof {
        reveal(tok_k_left);
        assert(v@ =~= tok_k_left());
    }
    v
}

/// The token `right` as bytes.
#[verifier::opaque]
pub open spec fn tok_k_right() -> Seq<u8> {
    seq![114u8, 105u8, 103u8, 104u8, 116u8]
}

pub(crate) fn lit_k_right() -> (r: Vec<u8>)
    ensures
        r@ == tok_k_right(),
{
    let mut v: Vec<u8> = Vec::new();
    v.push(114);
    v.push(105);
    v.push(103);
    v.push(104);
    v.push(116);
    proof {
        reveal(tok_k_right);
        assert(v@ =~= tok_k_right());
    }
    v
}

/// The token `squash` as bytes.
#[verifier::opaque]
pub open spec fn tok_k_squash() -> Seq<u8> {
    seq![115u8, 113u8, 117u8, 97u8, 115u8, 104u8]
}

pub(crate) fn lit_k_squash() -> (r: Vec<u8>)
    ensures
        r@ == tok_k_squash(),
{
    let mut v: Vec<u8> = Vec::new();
    v.push(115);
    v.push(113);
    v.push(117);
    v.push(97);
    v.push(115);
    v.push(104);
    proof {
        reveal(tok_k_squash);
        assert(v@ =~= tok_k_squash());
    }
    v
}

/// The token `none` as bytes.
#[verifier::opaque]
pub open spec fn tok_k_none() -> Seq<u8> {
    seq![110u8, 111u8, 110u8, 101u8]
}

pub(crate) fn lit_k_none() -> (r: Vec<u8>)
    ensures
        r@ == tok_k_none(),
{
    let mut v: Vec<u8> = Vec::new();
    v.push(110);
    v.push(111);
    v.push(110);
    v.push(101);
    proof {
        reveal(tok_k_none);
        assert(v@ =~= tok_k_none());
    }
    v
}

/// The token `@auto` as bytes.
#[verifier::opaque]
pub open spec fn tok_j_auto() -> Seq<u8> {
    seq![64u8, 97u8, 117u8, 116u8, 111u8]
}

pub(crate) fn lit_j_auto() -> (r: Vec<u8>)
    ensures
        r@ == tok_j_auto(),
{
    let mut v: Vec<u8> = Vec::new();
    v.push(64);
    v.push(97);
    v.push(117);
    v.push(116);
    v.push(111);
    proof {
        reveal(tok_j_auto);
        assert(v@ =~= tok_j_auto());
    }
    v
}

/// The token `@after-previous` as bytes.
#[verifier::opaque]
pub open spec fn tok_j_after_previous() -> Seq<u8> {
    seq![64u8, 97u8, 102u8, 116u8, 101u8, 114u8, 45u8, 112u8, 114u8, 101u8, 118u8, 105u8, 111u8, 117u8, 115u8]
}

pub(crate) fn lit_j_after_previous() -> (r: Vec<u8>)
    ensures
        r@ == tok_j_after_previous(),
{
    let mut v: Vec<u8> = Vec::new();
    v.push(64);
    v.push(97);
    v.push(102);
    v.push(116);
    v.push(101);
    v.push(114);
    v.push(45);
    v.push(112);
    v.push(114);
    v.push(101);
    v.push(118);
    v.push(105);
    v.push(111);
    v.push(117);
    v.push(115);
    proof {
        reveal(tok_j_after_previous);
        assert(v@ =~= tok_j_after_previous());
    }
    v
}

/// The token `@before-next` as bytes.
#[verifier::opaque]
pub open spec fn tok_j_before_next() -> Seq<u8> {
    seq![64u8, 98u8, 101u8, 102u8, 111u8, 114u8, 101u8, 45u8, 110u8, 101u8, 120u8, 116u8]
}

pub(crate) fn lit_j_before_next() -> (r: Vec<u8>)
    ensures
        r@ == tok_j_before_next(),
{
    let mut v: Vec<u8> = Vec::new();
    v.push(64);
    v.push(98);
    v.push(101);
    v.push(102);
    v.push(111);
    v.push(114);
    v.push(101);
    v.push(45);
    v.push(110);
    v.push(101);
    v.push(120);
    v.push(116);
    proof {
        reveal(tok_j_before_next);
        assert(v@ =~= tok_j_before_next());
    }
    v
}

/// The token `@first` as bytes.
#[verifier::opaque]
pub open spec fn tok_j_first() -> Seq<u8> {
    seq![64u8, 102u8, 105u8, 114u8, 115u8, 116u8]
}

pub(crate) fn lit_j_first() -> (r: Vec<u8>)
    ensures
        r@ == tok_j_first(),
{
    let mut v: Vec<u8> = Vec::new();
    v.push(64);
    v.push(102);
    v.push(105);
    v.push(114);
    v.push(115);
    v.push(116);
    proof {
        reveal(tok_j_first);
        assert(v@ =~= tok_j_first());
    }
    v
}

/// The token `@last` as bytes.
#[verifier::opaque]
pub open spec fn tok_j_last() -> Seq<u8> {
    seq![64u8, 108u8, 97u8, 115u8, 116u8]
}

pub(crate) fn lit_j_last() -> (r: Vec<u8>)
    ensures
        r@ == tok_j_last(),
{
    let mut v: Vec<u8> = Vec::new();
    v.push(64);
    v.push(108);
    v.push(97);
    v.push(115);
    v.push(116);
    proof {
        reveal(tok_j_last);
        assert(v@ =~= tok_j_last());
    }
    v
}

/// The token `@space` as bytes.
#[verifier::opaque]
pub open spec fn tok_j_space() -> Seq<u8> {
    seq![64u8, 115u8, 112u8, 97u8, 99u8, 101u8]
}

pub(crate) fn lit_j_space() -> (r: Vec<u8>)
    ensures
        r@ == tok_j_space(),
{
    let mut v: Vec<u8> = Vec::new();
    v.push(64);
    v.push(115);
    v.push(112);
    v.push(97);
    v.push(99);
    v.push(101);
    proof {
        reveal(tok_j_space);
        assert(v@ =~= tok_j_space());
    }
    v
}

/// The token `@none` as bytes.
#[verifier::opaque]
pub open spec fn tok_j_none() -> Seq<u8> {
    seq![64u8, 110u8, 111u8, 110u8, 101u8]
}

pub(crate) fn lit_j_none() -> (r: Vec<u8>)
    ensures
        r@ == tok_j_none(),
{
    let mut v: Vec<u8> = Vec::new();
    v.push(64);
    v.push(110);
    v.push(111);
    v.push(110);
    v.push(101);
    proof {
        reveal(tok_j_none);
        assert(v@ =~= tok_j_none());
    }
    v
}

/// The token `start` as bytes.
#[verifier::opaque]
pub open spec fn tok_k_start() -> Seq<u8> {
    seq![115u8, 116u8, 97u8, 114u8, 116u8]
}

pub(crate) fn lit_k_start() -> (r: Vec<u8>)
    ensures
        r@ == tok_k_start(),
{
    let mut v: Vec<u8> = Vec::new();
    v.push(115);
    v.push(116);
    v.push(97);
    v.push(114);
    v.push(116);
    proof {
        reveal(tok_k_start);
        assert(v@ =~= tok_k_start());
    }
    v
}

/// The token `first` as bytes.
#[verifier::opaque]
pub open spec fn tok_k_first() -> Seq<u8> {
    seq![102u8, 105u8, 114u8, 115u8, 116u8]
}

pub(crate) fn lit_k_first() -> (r: Vec<u8>)
    ensures
        r@ == tok_k_first(),
{
    let mut v: Vec<u8> = Vec::new();
    v.push(102);
    v.push(105);
    v.push(114);
    v.push(115);
    v.push(116);
    proof {
        reveal(tok_k_first);
        assert(v@ =~= tok_k_first());
    }
    v
}

/// The token `end` as bytes.
#[verifier::opaque]
pub open spec fn tok_k_end() -> Seq<u8> {
    seq![101u8, 110u8, 100u8]
}

pub(crate) fn lit_k_end() -> (r: Vec<u8>)
    ensures
        r@ == tok_k_end(),
{
    let mut v: Vec<u8> = Vec::new();
    v.push(101);
    v.push(110);
    v.push(100);
    proof {
        reveal(tok_k_end);
        assert(v@ =~= tok_k_end());
    }
    v
}

/// The token `last` as bytes.
#[verifier::opaque]
pub open spec fn tok_k_last() -> Seq<u8> {
    seq![108u8, 97u8, 115u8, 116u8]
}

pub(crate) fn lit_k_last() -> (r: Vec<u8>)
    ensures
        r@ == tok_k_last(),
{
    let mut v: Vec<u8> = Vec::new();
    v.push(108);
    v.push(97);
    v.push(115);
    v.push(116);
    proof {
        reveal(tok_k_last);
        assert(v@ =~= tok_k_last());
    }
    v
}

/// The token `0x` as bytes.
#[verifier::opaque]
pub open spec fn tok_hex_lower() -> Seq<u8> {
    seq![48u8, 120u8]
}

pub(crate) fn lit_hex_lower() -> (r: Vec<u8>)
    ensures
        r@ == tok_hex_lower(),
{
    let mut v: Vec<u8> = Vec::new();
    v.push(48);
    v.push(120);
    proof {
        reveal(tok_hex_lower);
        assert(v@ =~= tok_hex_lower());
    }
    v
}

/// The token `0X` as bytes.
#[verifier::opaque]
pub open spec fn tok_hex_upper() -> Seq<u8> {
    seq![48u8, 88u8]
}

pub(crate) fn lit_hex_upper() -> (r: Vec<u8>)
    ensures
        r@ == tok_hex_upper(),
{
    let mut v: Vec<u8> = Vec::new();
    v.push(48);
    v.push(88);
    proof {
        reveal(tok_hex_upper);
        assert(v@ =~= tok_hex_upper());
    }
    v
}

} // verus!
