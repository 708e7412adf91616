use vstd::prelude::*;

use crate::builder::{build_all, empty_bstate, lemma_build_all_ok, parse_result, TreeParser};
use crate::errors::{JecsCorruptedDataError, JecsParseError};
use crate::scanner::parse_line;
use crate::text::{line_seqs, lines_view, split_lines, str_to_chars};
use crate::types::JecsType;

verus! {

broadcast use vstd::std_specs::vec::group_vec_axioms, vstd::seq::group_seq_axioms;

/// Parses a whole text into its tree: one top-level mapping whose entries are
/// the root nodes keyed by their own keys.
pub fn parse_jecs_string(text: &str) -> (r: Result<JecsType, JecsCorruptedDataError>)
    ensures
        match parse_result(text@) {
            Ok(v) => r matches Ok(t) && t@ == v,
            Err(e) => r matches Err(er) && er@ == e,
        },
{
    let chars = str_to_chars(text);
    let lines = split_lines(&chars);
    let ghost lv = lines_view(lines@);
    let mut tree_parser = TreeParser::default();
    let mut i: usize = 0;
    while i < lines.len()
        invariant
            i <= lines@.len(),
            lv == lines_view(lines@),
            lv == line_seqs(text@),
            build_all(lv, i as int, tree_parser@) == build_all(lv, 0, empty_bstate()),
        decreases lines@.len() - i,
    {
        match parse_line(&lines, i) {
            Ok((record, next)) => {
                match record {
                    Some(meta) => {
                        proof {
                            crate::builder::lemma_lc_views_props(tree_parser.stack@);
                        }
                        let step_result = if tree_parser.stack.len() == 0 {
                            tree_parser.add_validate_root(meta)
                        } else {
                            tree_parser.append_next_line(meta)
                        };
                        match step_result {
                            Ok(()) => {},
                            Err(e) => {
                                return Err(e);
                            },
                        }
                    },
                    None => {},
                }
                i = next;
            },
            Err(e) => {
                return Err(e);
            },
        }
    }
    proof {
        assert(build_all(lv, i as int, tree_parser@) == Ok::<_, crate::errors::CorruptSpec>(
            crate::builder::drain(tree_parser@),
        ));
    }
    tree_parser.post_line_addition_cleanup();
    proof {
        lemma_build_all_ok(lv, 0, empty_bstate());
    }
    tree_parser.finalize_to_map()
}

/// Relies on std's `str::from_utf8`: it succeeds exactly on valid UTF-8
/// input, and the resulting text slice holds those bytes' decoded characters.
#[verifier::external_body]
fn bytes_to_str(bytes: &[u8]) -> (r: Option<&str>)
    ensures
        r is Some <==> vstd::utf8::valid_utf8(bytes@),
        r matches Some(s) ==> s@ == vstd::utf8::decode_utf8(bytes@),
{
    match std::str::from_utf8(bytes) {
        Ok(s) => Some(s),
        Err(_) => None,
    }
}

/// Decodes the bytes as text and parses them.
pub fn parse_jecs_bytes(bytes: &[u8]) -> (r: Result<JecsType, JecsParseError>)
    ensures
        !vstd::utf8::valid_utf8(bytes@) ==> (r matches Err(e) && e is InvalidText),
        vstd::utf8::valid_utf8(bytes@) ==> match parse_result(
            vstd::utf8::decode_utf8(bytes@),
        ) {
            Ok(v) => r matches Ok(t) && t@ == v,
            Err(e) => r matches Err(JecsParseError::Corrupted(c)) && c@ == e,
        },
{
    match bytes_to_str(bytes) {
        Some(text) => match parse_jecs_string(text) {
            Ok(tree) => Ok(tree),
            Err(e) => Err(JecsParseError::Corrupted(e)),
        },
        None => Err(JecsParseError::InvalidText),
    }
}

} // verus!
