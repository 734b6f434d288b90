//! Forced alignment of phoneme streams against written text.
//!
//! The crate turns a flat, timestamped stream of phonetic symbols (as an
//! external text-to-phoneme engine produces it) into word-level timing
//! information aligned against the original text.  Times are integer
//! milliseconds; fuzzy-distance scores are fixed-point thousandths.

use vstd::prelude::*;

pub mod align;
pub mod leven;
pub mod lexicon;
pub mod phonemes;
pub mod punct;
pub mod sanitize;
pub mod strutil;
pub mod tokenize;

verus! {

/// Mathematical model of a [`Chunk`].
pub ghost struct ChunkView {
    pub value: Seq<char>,
    pub start: int,
    pub end: int,
    pub start_time: int,
    pub end_time: int,
}

/// One orthographic word from the source text.  `start` and `end` are
/// character offsets into the original text (or phoneme index spans when
/// phoneme bounds are requested); `start_time` and `end_time` are
/// milliseconds.
pub struct Chunk {
    pub value: String,
    pub start: usize,
    pub end: usize,
    pub start_time: u64,
    pub end_time: u64,
}

impl View for Chunk {
    type V = ChunkView;

    open spec fn view(&self) -> ChunkView {
        ChunkView {
            value: self.value@,
            start: self.start as int,
            end: self.end as int,
            start_time: self.start_time as int,
            end_time: self.end_time as int,
        }
    }
}

impl Clone for Chunk {
    fn clone(&self) -> (r: Self)
        ensures
            r@ == self@,
    {
        Chunk {
            value: self.value.clone(),
            start: self.start,
            end: self.end,
            start_time: self.start_time,
            end_time: self.end_time,
        }
    }
}

/// Mathematical model of a [`PhonemeChunk`].
pub ghost struct PhonemeChunkView {
    pub value: Seq<char>,
    pub value_word: Seq<char>,
    pub start: int,
    pub end: int,
    pub start_time: int,
    pub end_time: int,
}

/// One phonetic "word" extracted from the raw symbol stream.  `value` holds
/// the phoneme characters, `value_word` their approximate written form;
/// `start` and `end` are symbol indices, the times milliseconds.
pub struct PhonemeChunk {
    pub value: String,
    pub value_word: String,
    pub start: usize,
    pub end: usize,
    pub start_time: u64,
    pub end_time: u64,
}

impl View for PhonemeChunk {
    type V = PhonemeChunkView;

    open spec fn view(&self) -> PhonemeChunkView {
        PhonemeChunkView {
            value: self.value@,
            value_word: self.value_word@,
            start: self.start as int,
            end: self.end as int,
            start_time: self.start_time as int,
            end_time: self.end_time as int,
        }
    }
}

impl Clone for PhonemeChunk {
    fn clone(&self) -> (r: Self)
        ensures
            r@ == self@,
    {
        PhonemeChunk {
            value: self.value.clone(),
            value_word: self.value_word.clone(),
            start: self.start,
            end: self.end,
            start_time: self.start_time,
            end_time: self.end_time,
        }
    }
}

/// Mathematical model of a [`NestedChunk`].
pub ghost struct NestedChunkView {
    pub value: Seq<char>,
    pub start: int,
    pub end: int,
    pub start_time: int,
    pub end_time: int,
    pub chunks: Seq<ChunkView>,
}

/// The aligned document: the full text with its span and the aligned word
/// chunks in order.
pub struct NestedChunk {
    pub value: String,
    pub start: usize,
    pub end: usize,
    pub start_time: u64,
    pub end_time: u64,
    pub chunks: Vec<Chunk>,
}

impl View for NestedChunk {
    type V = NestedChunkView;

    open spec fn view(&self) -> NestedChunkView {
        NestedChunkView {
            value: self.value@,
            start: self.start as int,
            end: self.end as int,
            start_time: self.start_time as int,
            end_time: self.end_time as int,
            chunks: chunks_view(self.chunks@),
        }
    }
}

/// The models of a sequence of chunks.
pub open spec fn chunks_view(s: Seq<Chunk>) -> Seq<ChunkView> {
    s.map_values(|c: Chunk| c@)
}

/// The models of a sequence of phoneme chunks.
pub open spec fn phoneme_chunks_view(s: Seq<PhonemeChunk>) -> Seq<PhonemeChunkView> {
    s.map_values(|c: PhonemeChunk| c@)
}

} // verus!
