//! Making sure that a stream is the stream of a dictionary: its records
//! are read one after the other, and the file of the entries read is built
//! anew.

use crate::builder::{spec_has_positions, TermDictionaryBuilderImpl};
use crate::delta_encoder::{TermDeltaDecoder, TermInfoDeltaDecoder};
use crate::layout::{dictionary_file, entries_fit, entries_ordered, entries_readable};
use crate::layout::{lemma_stream_upto_len, lemma_take_entries, stream_of, stream_upto};
use crate::postings::TermInfo;
use crate::record::{lemma_parse_record_without_positions, read_term_kv};
use crate::schema::{FieldType, TextIndexingOptions, TextOptions};
use crate::stream::{lemma_parse_entry, lemma_stream_injective, resumable};
use crate::termdict::is_dictionary_of;
use vstd::prelude::*;

verus! {

/// The stream is that of these entries, which are ordered, fit, and can be
/// read back.
pub open spec fn is_stream_of(
    stream: Seq<u8>,
    entries: Seq<(Seq<u8>, TermInfo)>,
    has_positions: bool,
) -> bool {
    &&& stream == stream_of(entries, has_positions)
    &&& entries_ordered(entries, has_positions)
    &&& entries_fit(entries, has_positions)
    &&& entries_readable(entries, has_positions)
}

/// A field type whose dictionary holds positions, or one whose dictionary
/// holds none.
fn field_type_for(has_positions: bool) -> (res: FieldType)
    ensures
        spec_has_positions(res) == has_positions,
{
    if has_positions {
        FieldType::Str(
            TextOptions {
                indexing: TextIndexingOptions::TokenizedWithFreqAndPosition,
                stored: false,
            },
        )
    } else {
        FieldType::U64
    }
}

/// Reads the records of `stream` one after the other and builds the file of
/// the entries read. There is no file where a record does not read, where
/// an entry cannot follow the one before it, or where the entries do not
/// fit. The file of a stream of a dictionary is the file of that
/// dictionary.
pub(crate) fn rebuild(stream: &[u8], has_positions: bool) -> (res: (
    Option<Vec<u8>>,
    Ghost<Seq<(Seq<u8>, TermInfo)>>,
))
    ensures
        res.0 is Some ==> is_dictionary_of(res.0->Some_0@, res.1@, has_positions),
        forall|entries: Seq<(Seq<u8>, TermInfo)>| #[trigger]
            is_stream_of(stream@, entries, has_positions) ==> res.0 is Some && res.1@ == entries,
{
    let ghost hp = has_positions;
    let ghost known = exists|e: Seq<(Seq<u8>, TermInfo)>| #[trigger] is_stream_of(stream@, e, hp);
    let ghost expected = choose|e: Seq<(Seq<u8>, TermInfo)>| #[trigger]
        is_stream_of(stream@, e, hp);
    proof {
        assert forall|e: Seq<(Seq<u8>, TermInfo)>| #[trigger]
            is_stream_of(stream@, e, hp) implies e == expected by {
            lemma_stream_injective(e, expected, hp);
        }
    }
    let field_type = field_type_for(has_positions);
    let mut builder = match TermDictionaryBuilderImpl::new(Vec::new(), field_type) {
        Ok(builder) => builder,
        Err(_) => {
            return (None, Ghost(expected));
        },
    };
    let mut terms = TermDeltaDecoder::default();
    let mut infos = TermInfoDeltaDecoder::from_term_info(TermInfo::default(), has_positions);
    let mut cursor: usize = 0;
    proof {
        if known {
            assert(expected.take(0) =~= builder.entries());
        }
    }
    while cursor < stream.len()
        invariant
            hp == has_positions,
            builder.wf(),
            builder.spec_has_positions() == hp,
            builder.initial().len() == 0,
            infos.spec_has_positions() == hp,
            entries_readable(builder.entries(), hp),
            !hp ==> infos.spec_term_info().positions_offset == 0
                && infos.spec_term_info().positions_inner_offset == 0,
            cursor <= stream@.len(),
            forall|e: Seq<(Seq<u8>, TermInfo)>| #[trigger]
                is_stream_of(stream@, e, hp) ==> known && e == expected,
            known ==> is_stream_of(stream@, expected, hp),
            known ==> builder.entries().len() <= expected.len() && builder.entries()
                == expected.take(builder.entries().len() as int) && cursor == stream_upto(
                expected,
                builder.entries().len() as int,
                hp,
            ).len() && resumable(
                expected,
                hp,
                builder.entries().len() as int,
                terms.spec_term(),
                infos.spec_term_info(),
            ),
        decreases stream@.len() - cursor,
    {
        let ghost i = builder.entries().len() as int;
        proof {
            if !hp {
                lemma_parse_record_without_positions(
                    stream@,
                    cursor as int,
                    terms.spec_term(),
                    infos.spec_term_info(),
                );
            }
            if known {
                if i == expected.len() {
                    assert(false);
                }
                lemma_parse_entry(expected, hp, i, terms.spec_term(), infos.spec_term_info());
                lemma_take_entries(expected, i + 1, hp);
                assert(expected.take(i + 1) =~= expected.take(i).push(expected[i]));
                assert(expected.take(i + 1).last() == expected[i]);
                if i > 0 {
                    assert(expected.take(i).last() == expected[i - 1]);
                    assert(crate::layout::keys_ascend(expected, i - 1, i));
                }
                assert(crate::layout::entry_follows(expected, i, hp));
            }
        }
        let next = match read_term_kv(stream, cursor, &mut terms, &mut infos) {
            Ok(next) => next,
            Err(_) => {
                return (None, Ghost(expected));
            },
        };
        let value = *infos.term_info();
        if !builder.accepts(terms.term(), &value) {
            return (None, Ghost(expected));
        }
        if !builder.fits(terms.term(), &value) {
            return (None, Ghost(expected));
        }
        let ghost before = builder.entries();
        match builder.insert(terms.term(), &value) {
            Ok(()) => {},
            Err(_) => {
                return (None, Ghost(expected));
            },
        }
        proof {
            let e = builder.entries();
            if !hp {
                assert forall|j: int| 0 <= j < e.len() implies (#[trigger] e[j]).1.positions_offset
                    == 0 && e[j].1.positions_inner_offset == 0 by {
                    if j < before.len() {
                        assert(before[j].1.positions_offset == 0);
                    }
                }
            }
        }
        cursor = next;
    }
    let ghost read = builder.entries();
    proof {
        if known {
            let i = read.len() as int;
            if i < expected.len() {
                lemma_stream_upto_len(expected, i, expected.len() as int, hp);
            }
            assert(expected.take(i) =~= expected);
        }
    }
    match builder.finish() {
        Ok(file) => (Some(file), Ghost(read)),
        Err(_) => (None, Ghost(expected)),
    }
}

} // verus!
