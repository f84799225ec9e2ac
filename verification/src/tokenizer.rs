//! Tokenizers: text to token ids and back.
//!
//! [`SimpleTokenizer`] maps each printable ASCII character, then newline,
//! carriage return and tab, to its own id, starting at 4; ids 0 to 3 are the
//! default special tokens (PAD 0, BOS 1, EOS 2, UNK 3, see
//! [`SpecialTokenIds`]). [`HuggingFaceTokenizer`] delegates to a tokenizer of
//! the `tokenizers` crate.
//!
//! Every tokenizer hands out per-request incremental decoders: the pieces a
//! decoder emits, concatenated, are the text of a one-shot decode of the same
//! tokens.
use std::collections::HashMap;
use tokenizers::Tokenizer;
use vstd::prelude::*;
use vstd::string::{StrSliceExecFns, StringExecFns};

use crate::config::{EngineConfig, SpecialTokenIds, TokenizerKind};
use crate::error::{ConfigError, EngineError};
use crate::text::push_char;
use crate::types::TokenId;

verus! {

/// The operations of a tokenizer.
pub trait TokenizerTrait: Send + Sync {
    /// Encoding `text` is sure to succeed; a tokenizer promises nothing
    /// unless it says so.
    open spec fn encodes(&self, text: Seq<char>) -> bool {
        false
    }

    /// Decoding `tokens` is sure to succeed; a tokenizer promises nothing
    /// unless it says so.
    open spec fn decodes(&self, tokens: Seq<TokenId>) -> bool {
        false
    }

    /// The ids `text` encodes to, where [`Self::encodes`] holds of it.
    open spec fn encoded(&self, text: Seq<char>) -> Seq<TokenId> {
        Seq::empty()
    }

    /// The text `tokens` decode to, where [`Self::decodes`] holds of them.
    open spec fn decoded(&self, tokens: Seq<TokenId>) -> Seq<char> {
        Seq::empty()
    }

    /// Encodes text into token ids.
    fn try_encode(&self, text: &str) -> (r: Result<Vec<TokenId>, String>)
        ensures
            self.encodes(text@) ==> (r matches Ok(t) && t@ == self.encoded(text@)),
    ;

    /// Decodes token ids into text.
    fn try_decode(&self, tokens: &[TokenId]) -> (r: Result<String, String>)
        ensures
            self.decodes(tokens@) ==> (r matches Ok(t) && t@ == self.decoded(tokens@)),
    ;

    /// Encodes text that is sure to encode.
    fn encode(&self, text: &str) -> (r: Vec<TokenId>)
        requires
            self.encodes(text@),
        ensures
            r@ == self.encoded(text@),
    {
        match self.try_encode(text) {
            Ok(tokens) => tokens,
            Err(_) => {
                proof {
                    assert(false);
                }
                Vec::new()
            },
        }
    }

    /// Decodes tokens that are sure to decode.
    fn decode(&self, tokens: &[TokenId]) -> (r: String)
        requires
            self.decodes(tokens@),
        ensures
            r@ == self.decoded(tokens@),
    {
        match self.try_decode(tokens) {
            Ok(text) => text,
            Err(_) => {
                proof {
                    assert(false);
                }
                String::new()
            },
        }
    }

    /// Size of the vocabulary.
    fn vocab_size(&self) -> u32;

    /// Id of the beginning-of-sequence token.
    fn bos_token_id(&self) -> TokenId;

    /// Id of the end-of-sequence token.
    fn eos_token_id(&self) -> TokenId;

    /// Id of the padding token.
    fn pad_token_id(&self) -> TokenId;

    /// A fresh incremental decoder for one request.
    fn create_decoder(&self) -> BoxedDecoder;
}

/// A per-request incremental decoder.
pub trait IncrementalDecoder: Send {
    /// Takes the next generated token; returns the text that can be emitted
    /// now, or `None` when more tokens are needed first.
    fn push(&mut self, token: TokenId) -> Result<Option<String>, String>;

    /// Flushes what is left once the request is over.
    fn finish(&mut self) -> Result<Option<String>, String>;
}

/// What a [`BoxedDecoder`] wraps: the simple decoder, whose rules are
/// known, or a decoder of any other kind.
enum DecoderKind {
    Simple(SimpleDecoder),
    Other(Box<dyn IncrementalDecoder>),
}

/// An incremental decoder of any kind, as a tokenizer hands it out, with a
/// record of the tokens pushed through it and the text they emitted.
pub struct BoxedDecoder {
    inner: DecoderKind,
    pushed_tokens: Ghost<Seq<TokenId>>,
    emitted_text: Ghost<Seq<char>>,
}

impl BoxedDecoder {
    /// The tokens pushed through this decoder so far.
    pub closed spec fn pushed(&self) -> Seq<TokenId> {
        self.pushed_tokens@
    }

    /// The text the pushes emitted so far, concatenated.
    pub closed spec fn emitted(&self) -> Seq<char> {
        self.emitted_text@
    }

    /// The special tokens and skipping rule of the wrapped decoder when it is
    /// the simple one; `None` for a decoder of another kind.
    pub closed spec fn simple_rules(&self) -> Option<(SpecialTokenIds, bool)> {
        match self.inner {
            DecoderKind::Simple(d) => Some((d.specials(), d.skips_specials())),
            DecoderKind::Other(_) => None,
        }
    }

    /// The decoder streams exactly: it wraps the simple decoder, and what it
    /// emitted is the simple decoding of what was pushed.
    pub open spec fn streams_exactly(&self) -> bool {
        self.simple_rules() matches Some((sp, add)) && self.emitted() == simple_decode(self.pushed(), sp, add)
    }

    /// Wraps a decoder; nothing has been pushed through it yet.
    pub fn new(inner: Box<dyn IncrementalDecoder>) -> (r: Self)
        ensures
            r.pushed() == Seq::<TokenId>::empty(),
            r.emitted() == Seq::<char>::empty(),
            r.simple_rules() is None,
    {
        Self { inner: DecoderKind::Other(inner), pushed_tokens: Ghost(Seq::empty()), emitted_text: Ghost(Seq::empty()) }
    }

    /// Wraps the simple decoder; nothing has been pushed through it yet.
    fn from_simple(d: SimpleDecoder) -> (r: Self)
        ensures
            r.pushed() == Seq::<TokenId>::empty(),
            r.emitted() == Seq::<char>::empty(),
            r.simple_rules() == Some((d.specials(), d.skips_specials())),
            r.streams_exactly(),
    {
        let r = Self { inner: DecoderKind::Simple(d), pushed_tokens: Ghost(Seq::empty()), emitted_text: Ghost(Seq::empty()) };
        proof {
            assert(simple_decode(Seq::<TokenId>::empty(), d.specials(), d.skips_specials()) =~= Seq::<char>::empty());
        }
        r
    }

    /// Hands the token to the wrapped decoder (see
    /// [`IncrementalDecoder::push`]) and returns what it gives; the token and
    /// the text emitted are recorded. The simple decoder emits the token's
    /// piece (see [`token_piece`]), or nothing when it is empty, and so keeps
    /// streaming exactly.
    pub fn push(&mut self, token: TokenId) -> (r: Result<Option<String>, String>)
        ensures
            final(self).pushed() == old(self).pushed().push(token),
            r matches Ok(Some(t)) ==> final(self).emitted() == old(self).emitted() + t@,
            !(r matches Ok(Some(_))) ==> final(self).emitted() == old(self).emitted(),
            final(self).simple_rules() == old(self).simple_rules(),
            old(self).simple_rules() matches Some((sp, add)) ==> (r matches Ok(o) && match o {
                Some(text) => text@ == token_piece(token, sp, add) && text@.len() > 0,
                None => token_piece(token, sp, add).len() == 0,
            }),
            old(self).streams_exactly() ==> final(self).streams_exactly(),
    {
        let r = match &mut self.inner {
            DecoderKind::Simple(d) => d.push(token),
            DecoderKind::Other(b) => b.push(token),
        };
        proof {
            if let Some((sp, add)) = old(self).simple_rules() {
                lemma_decode_push(old(self).pushed(), token, sp, add);
                if token_piece(token, sp, add).len() == 0 {
                    assert(simple_decode(old(self).pushed(), sp, add) + token_piece(token, sp, add)
                        =~= simple_decode(old(self).pushed(), sp, add));
                }
            }
        }
        self.pushed_tokens = Ghost(self.pushed_tokens@.push(token));
        match &r {
            Ok(Some(t)) => {
                self.emitted_text = Ghost(self.emitted_text@ + t@);
            },
            _ => {},
        }
        r
    }

    /// Asks the wrapped decoder for what is left (see
    /// [`IncrementalDecoder::finish`]) and returns what it gives; the simple
    /// decoder holds nothing back.
    pub fn finish(&mut self) -> (r: Result<Option<String>, String>)
        ensures
            final(self).pushed() == old(self).pushed(),
            final(self).emitted() == old(self).emitted(),
            final(self).simple_rules() == old(self).simple_rules(),
            old(self).simple_rules() is Some ==> r == Ok::<Option<String>, String>(None),
    {
        match &mut self.inner {
            DecoderKind::Simple(d) => d.finish(),
            DecoderKind::Other(b) => b.finish(),
        }
    }
}

/// The id of the character with code `u` in the simple vocabulary, if it has one.
pub open spec fn simple_char_id(u: u32) -> Option<TokenId> {
    if 32 <= u <= 126 {
        Some((u - 28) as u32)
    } else if u == 10 {
        Some(99)
    } else if u == 13 {
        Some(100)
    } else if u == 9 {
        Some(101)
    } else {
        None
    }
}

/// The character of token `t` in the simple vocabulary, if it has one.
pub open spec fn simple_id_char(t: TokenId) -> Option<char> {
    if 4 <= t <= 98 {
        Some(((t + 28) as u8) as char)
    } else if t == 99 {
        Some('\n')
    } else if t == 100 {
        Some('\r')
    } else if t == 101 {
        Some('\t')
    } else {
        None
    }
}

/// Number of ids of the simple vocabulary, special ids included.
pub open spec fn simple_vocab_size() -> u32 {
    102
}

/// The token of character `c`, or `unk` when it has none.
pub open spec fn char_token(c: char, unk: TokenId) -> TokenId {
    match simple_char_id(c as u32) {
        Some(t) => t,
        None => unk,
    }
}

/// The simple encoding of `text`: one token per character, between BOS and
/// EOS when special tokens are added.
pub open spec fn simple_encode(text: Seq<char>, sp: SpecialTokenIds, add: bool) -> Seq<TokenId> {
    let body = text.map_values(|c: char| char_token(c, sp.unk));
    if add {
        seq![sp.bos] + body + seq![sp.eos]
    } else {
        body
    }
}

/// Whether a token is a special token that decoding skips.
pub open spec fn skipped(t: TokenId, sp: SpecialTokenIds, add: bool) -> bool {
    add && (t == sp.bos || t == sp.eos || t == sp.pad)
}

/// The text of one token: its character, or nothing for a skipped special
/// token or an id with no character.
pub open spec fn token_piece(t: TokenId, sp: SpecialTokenIds, add: bool) -> Seq<char> {
    if !skipped(t, sp, add) && simple_id_char(t) is Some {
        seq![simple_id_char(t)->0]
    } else {
        Seq::empty()
    }
}

/// The simple decoding of `tokens`: the characters of the tokens that are
/// neither skipped nor unknown, in order.
pub open spec fn simple_decode(tokens: Seq<TokenId>, sp: SpecialTokenIds, add: bool) -> Seq<char> {
    tokens.filter(|t: TokenId| !skipped(t, sp, add) && simple_id_char(t) is Some).map_values(
        |t: TokenId| simple_id_char(t)->0,
    )
}

/// The pieces of `tokens`, concatenated.
pub open spec fn pieces_text(tokens: Seq<TokenId>, sp: SpecialTokenIds, add: bool) -> Seq<char> {
    tokens.map_values(|t: TokenId| token_piece(t, sp, add)).flatten()
}

/// A character-level tokenizer over printable ASCII and `\n`, `\r`, `\t`.
#[derive(Debug)]
pub struct SimpleTokenizer {
    /// Token id of each character, keyed by its code.
    char_to_id: HashMap<u32, TokenId>,
    /// Character of each token id.
    id_to_char: HashMap<TokenId, char>,
    vocab_size: u32,
    special_tokens: SpecialTokenIds,
    /// Whether encoding adds BOS and EOS and decoding skips special tokens.
    add_special_tokens: bool,
}

/// The character table, keyed by code.
pub open spec fn char_id_map() -> Map<u32, TokenId> {
    Map::new(|u: u32| simple_char_id(u) is Some, |u: u32| simple_char_id(u)->0)
}

/// The token table.
pub open spec fn id_char_map() -> Map<TokenId, char> {
    Map::new(|t: TokenId| simple_id_char(t) is Some, |t: TokenId| simple_id_char(t)->0)
}

impl SimpleTokenizer {
    /// The tokenizer's tables are the simple vocabulary.
    #[verifier::type_invariant]
    closed spec fn wf(&self) -> bool {
        &&& self.char_to_id@ == char_id_map()
        &&& self.id_to_char@ == id_char_map()
        &&& self.vocab_size == simple_vocab_size()
    }

    /// The special token ids.
    pub closed spec fn specials(&self) -> SpecialTokenIds {
        self.special_tokens
    }

    /// Whether special tokens are added and skipped.
    pub closed spec fn adds_specials(&self) -> bool {
        self.add_special_tokens
    }

    /// A tokenizer with the default special tokens, which adds them.
    pub fn new() -> (r: Self)
        ensures
            r.specials() == (SpecialTokenIds { bos: 1, eos: 2, pad: 0, unk: 3 }),
            r.adds_specials(),
    {
        Self::with_special_tokens(SpecialTokenIds::default())
    }

    /// A tokenizer with the given special tokens, which adds them.
    pub fn with_special_tokens(special_tokens: SpecialTokenIds) -> (r: Self)
        ensures
            r.specials() == special_tokens,
            r.adds_specials(),
    {
        let mut char_to_id: HashMap<u32, TokenId> = HashMap::new();
        let mut id_to_char: HashMap<TokenId, char> = HashMap::new();
        let mut next_id: TokenId = 4;
        let mut b: u8 = 32;
        while b <= 126
            invariant
                32 <= b <= 127,
                next_id == b - 28,
                char_to_id@ == Map::new(|u: u32| 32 <= u < b, |u: u32| (u - 28) as u32),
                id_to_char@ == Map::new(|t: TokenId| 4 <= t < next_id, |t: TokenId| ((t + 28) as u8) as char),
            decreases 127 - b,
        {
            let c = b as char;
            char_to_id.insert(b as u32, next_id);
            id_to_char.insert(next_id, c);
            proof {
                assert(char_to_id@ =~= Map::new(|u: u32| 32 <= u < b + 1, |u: u32| (u - 28) as u32));
                assert(id_to_char@ =~= Map::new(
                    |t: TokenId| 4 <= t < next_id + 1,
                    |t: TokenId| ((t + 28) as u8) as char,
                ));
            }
            next_id = next_id + 1;
            b = b + 1;
        }
        let whitespace: [char; 3] = ['\n', '\r', '\t'];
        let mut k: usize = 0;
        while k < 3
            invariant
                k <= 3,
                whitespace@ == seq!['\n', '\r', '\t'],
                next_id == 99 + k,
                char_to_id@ == Map::new(
                    |u: u32| (32 <= u <= 126) || (k > 0 && u == 10) || (k > 1 && u == 13) || (k > 2 && u == 9),
                    |u: u32| simple_char_id(u)->0,
                ),
                id_to_char@ == Map::new(|t: TokenId| 4 <= t < next_id, |t: TokenId| simple_id_char(t)->0),
            decreases 3 - k,
        {
            let c = whitespace[k];
            let code = c as u32;
            if !char_to_id.contains_key(&code) {
                char_to_id.insert(code, next_id);
                id_to_char.insert(next_id, c);
                next_id = next_id + 1;
            }
            proof {
                assert(char_to_id@ =~= Map::new(
                    |u: u32| (32 <= u <= 126) || (k + 1 > 0 && u == 10) || (k + 1 > 1 && u == 13) || (k + 1 > 2 && u == 9),
                    |u: u32| simple_char_id(u)->0,
                ));
                assert(id_to_char@ =~= Map::new(|t: TokenId| 4 <= t < next_id, |t: TokenId| simple_id_char(t)->0));
            }
            k = k + 1;
        }
        proof {
            assert(char_to_id@ =~= char_id_map());
            assert(id_to_char@ =~= id_char_map());
        }
        Self { char_to_id, id_to_char, vocab_size: next_id, special_tokens, add_special_tokens: true }
    }

    /// A tokenizer with the default special tokens that neither adds nor
    /// skips them, for an exact round trip.
    pub fn without_special_tokens() -> (r: Self)
        ensures
            r.specials() == (SpecialTokenIds { bos: 1, eos: 2, pad: 0, unk: 3 }),
            !r.adds_specials(),
    {
        let mut t = Self::new();
        proof {
            use_type_invariant(&t);
        }
        t.add_special_tokens = false;
        t
    }

    /// The token of a character, or UNK.
    fn encode_char(&self, c: char) -> (r: TokenId)
        ensures
            r == char_token(c, self.specials().unk),
    {
        proof {
            use_type_invariant(self);
        }
        match self.char_to_id.get(&(c as u32)) {
            Some(id) => *id,
            None => self.special_tokens.unk,
        }
    }

    /// The character of a token, if it has one.
    fn decode_token(&self, token: TokenId) -> (r: Option<char>)
        ensures
            r == simple_id_char(token),
    {
        proof {
            use_type_invariant(self);
        }
        match self.id_to_char.get(&token) {
            Some(c) => Some(*c),
            None => None,
        }
    }

    /// The special token ids.
    pub fn special_tokens(&self) -> (r: &SpecialTokenIds)
        ensures
            *r == self.specials(),
    {
        &self.special_tokens
    }
}

impl Clone for SimpleTokenizer {
    fn clone(&self) -> (r: Self)
        ensures
            r.specials() == self.specials(),
            r.adds_specials() == self.adds_specials(),
    {
        proof {
            use_type_invariant(self);
        }
        Self {
            char_to_id: self.char_to_id.clone(),
            id_to_char: self.id_to_char.clone(),
            vocab_size: self.vocab_size,
            special_tokens: self.special_tokens,
            add_special_tokens: self.add_special_tokens,
        }
    }
}

impl Default for SimpleTokenizer {
    fn default() -> (r: Self)
        ensures
            r.specials() == (SpecialTokenIds { bos: 1, eos: 2, pad: 0, unk: 3 }),
            r.adds_specials(),
    {
        Self::new()
    }
}

/// Decoding one more token appends its piece.
proof fn lemma_decode_push(tokens: Seq<TokenId>, t: TokenId, sp: SpecialTokenIds, add: bool)
    ensures
        simple_decode(tokens.push(t), sp, add) == simple_decode(tokens, sp, add) + token_piece(t, sp, add),
{
    let pred = |x: TokenId| !skipped(x, sp, add) && simple_id_char(x) is Some;
    let f = |x: TokenId| simple_id_char(x)->0;
    assert(tokens.push(t).drop_last() =~= tokens);
    reveal_with_fuel(Seq::filter, 2);
    if pred(t) {
        assert(tokens.push(t).filter(pred) =~= tokens.filter(pred).push(t));
        assert(tokens.filter(pred).push(t).map_values(f) =~= tokens.filter(pred).map_values(f).push(f(t)));
    } else {
        assert(tokens.push(t).filter(pred) =~= tokens.filter(pred));
    }
    assert(simple_decode(tokens.push(t), sp, add) =~= simple_decode(tokens, sp, add) + token_piece(t, sp, add));
}

impl TokenizerTrait for SimpleTokenizer {
    open spec fn encodes(&self, text: Seq<char>) -> bool {
        true
    }

    open spec fn decodes(&self, tokens: Seq<TokenId>) -> bool {
        true
    }

    open spec fn encoded(&self, text: Seq<char>) -> Seq<TokenId> {
        simple_encode(text, self.specials(), self.adds_specials())
    }

    open spec fn decoded(&self, tokens: Seq<TokenId>) -> Seq<char> {
        simple_decode(tokens, self.specials(), self.adds_specials())
    }

    /// See [`simple_encode`].
    fn try_encode(&self, text: &str) -> (r: Result<Vec<TokenId>, String>)
        ensures
            r matches Ok(tokens) && tokens@ == simple_encode(
                text@,
                self.specials(),
                self.adds_specials(),
            ),
    {
        let mut tokens: Vec<TokenId> = Vec::new();
        if self.add_special_tokens {
            tokens.push(self.special_tokens.bos);
        }
        let ghost start = tokens@;
        let n = text.unicode_len();
        let mut i: usize = 0;
        while i < n
            invariant
                n == text@.len(),
                i <= n,
                tokens@ == start + text@.take(i as int).map_values(|c: char| char_token(c, self.specials().unk)),
            decreases n - i,
        {
            let c = text.get_char(i);
            tokens.push(self.encode_char(c));
            proof {
                assert(text@.take(i + 1) =~= text@.take(i as int).push(c));
                assert(text@.take(i + 1).map_values(|c: char| char_token(c, self.specials().unk))
                    =~= text@.take(i as int).map_values(|c: char| char_token(c, self.specials().unk)).push(
                    char_token(c, self.specials().unk),
                ));
            }
            i = i + 1;
        }
        if self.add_special_tokens {
            tokens.push(self.special_tokens.eos);
        }
        proof {
            assert(text@.take(n as int) =~= text@);
            if self.add_special_tokens {
                assert(tokens@ =~= simple_encode(text@, self.specials(), true));
            } else {
                assert(tokens@ =~= simple_encode(text@, self.specials(), false));
            }
        }
        Ok(tokens)
    }

    /// See [`simple_decode`].
    fn try_decode(&self, tokens: &[TokenId]) -> (r: Result<String, String>)
        ensures
            r matches Ok(text) && text@ == simple_decode(
                tokens@,
                self.specials(),
                self.adds_specials(),
            ),
    {
        let ghost sp = self.specials();
        let ghost add = self.adds_specials();
        let mut result = String::new();
        let mut i: usize = 0;
        proof {
            assert(tokens@.take(0) =~= Seq::<TokenId>::empty());
            assert(simple_decode(Seq::<TokenId>::empty(), sp, add) =~= Seq::<char>::empty());
        }
        while i < tokens.len()
            invariant
                sp == self.specials(),
                add == self.adds_specials(),
                i <= tokens@.len(),
                result@ == simple_decode(tokens@.take(i as int), sp, add),
            decreases tokens@.len() - i,
        {
            let token = tokens[i];
            proof {
                assert(tokens@.take(i + 1) =~= tokens@.take(i as int).push(token));
                lemma_decode_push(tokens@.take(i as int), token, sp, add);
            }
            if self.add_special_tokens && (token == self.special_tokens.bos
                || token == self.special_tokens.eos || token == self.special_tokens.pad) {
                proof {
                    assert(result@ + token_piece(token, sp, add) =~= result@);
                }
            } else {
                match self.decode_token(token) {
                    Some(c) => {
                        push_char(&mut result, c);
                    },
                    None => {
                        proof {
                            assert(result@ + token_piece(token, sp, add) =~= result@);
                        }
                    },
                }
            }
            i = i + 1;
        }
        proof {
            assert(tokens@.take(tokens@.len() as int) =~= tokens@);
        }
        Ok(result)
    }

    fn vocab_size(&self) -> (r: u32)
        ensures
            r == simple_vocab_size(),
    {
        proof {
            use_type_invariant(self);
        }
        self.vocab_size
    }

    fn bos_token_id(&self) -> (r: TokenId)
        ensures
            r == self.specials().bos,
    {
        self.special_tokens.bos
    }

    fn eos_token_id(&self) -> (r: TokenId)
        ensures
            r == self.specials().eos,
    {
        self.special_tokens.eos
    }

    fn pad_token_id(&self) -> (r: TokenId)
        ensures
            r == self.specials().pad,
    {
        self.special_tokens.pad
    }

    /// A fresh [`SimpleDecoder`] with this tokenizer's rules.
    fn create_decoder(&self) -> (r: BoxedDecoder)
        ensures
            r.pushed() == Seq::<TokenId>::empty(),
            r.emitted() == Seq::<char>::empty(),
            r.simple_rules() == Some((self.specials(), self.adds_specials())),
            r.streams_exactly(),
    {
        BoxedDecoder::from_simple(self.decoder())
    }
}

impl SimpleTokenizer {
    /// A decoder with this tokenizer's table and special-token rules.
    fn decoder(&self) -> (d: SimpleDecoder)
        ensures
            d.specials() == self.specials(),
            d.skips_specials() == self.adds_specials(),
    {
        proof {
            use_type_invariant(self);
        }
        SimpleDecoder {
            id_to_char: self.id_to_char.clone(),
            special_tokens: self.special_tokens,
            add_special_tokens: self.add_special_tokens,
        }
    }
}

/// The incremental decoder of [`SimpleTokenizer`]: each token decodes on its
/// own, to its piece (see [`token_piece`]).
pub struct SimpleDecoder {
    id_to_char: HashMap<TokenId, char>,
    special_tokens: SpecialTokenIds,
    add_special_tokens: bool,
}

impl SimpleDecoder {
    #[verifier::type_invariant]
    closed spec fn wf(&self) -> bool {
        self.id_to_char@ == id_char_map()
    }

    /// The special token ids.
    pub closed spec fn specials(&self) -> SpecialTokenIds {
        self.special_tokens
    }

    /// Whether special tokens are skipped.
    pub closed spec fn skips_specials(&self) -> bool {
        self.add_special_tokens
    }
}

impl IncrementalDecoder for SimpleDecoder {
    /// Emits the token's piece, or nothing when the piece is empty.
    fn push(&mut self, token: TokenId) -> (r: Result<Option<String>, String>)
        ensures
            final(self).specials() == old(self).specials(),
            final(self).skips_specials() == old(self).skips_specials(),
            r matches Ok(o) && match o {
                Some(text) => text@ == token_piece(token, old(self).specials(), old(self).skips_specials())
                    && text@.len() > 0,
                None => token_piece(token, old(self).specials(), old(self).skips_specials()).len() == 0,
            },
    {
        proof {
            use_type_invariant(&*self);
        }
        if self.add_special_tokens && (token == self.special_tokens.bos
            || token == self.special_tokens.eos || token == self.special_tokens.pad) {
            return Ok(None);
        }
        match self.id_to_char.get(&token) {
            Some(c) => {
                let mut text = String::new();
                push_char(&mut text, *c);
                proof {
                    assert(text@ =~= seq![*c]);
                }
                Ok(Some(text))
            },
            None => Ok(None),
        }
    }

    /// Nothing is held back, so nothing is left.
    fn finish(&mut self) -> (r: Result<Option<String>, String>)
        ensures
            final(self).specials() == old(self).specials(),
            final(self).skips_specials() == old(self).skips_specials(),
            r == Ok::<Option<String>, String>(None),
    {
        Ok(None)
    }
}

/// Decoding a concatenation decodes each part.
proof fn lemma_decode_append(a: Seq<TokenId>, b: Seq<TokenId>, sp: SpecialTokenIds, add: bool)
    ensures
        simple_decode(a + b, sp, add) == simple_decode(a, sp, add) + simple_decode(b, sp, add),
    decreases b.len(),
{
    if b.len() == 0 {
        assert(a + b =~= a);
        assert(simple_decode(b, sp, add) =~= Seq::<char>::empty());
        assert(simple_decode(a, sp, add) + simple_decode(b, sp, add) =~= simple_decode(a, sp, add));
    } else {
        let bl = b.drop_last();
        let t = b.last();
        assert(a + b =~= (a + bl).push(t));
        assert(b =~= bl.push(t));
        lemma_decode_append(a, bl, sp, add);
        lemma_decode_push(a + bl, t, sp, add);
        lemma_decode_push(bl, t, sp, add);
        assert(simple_decode(a + b, sp, add) =~= simple_decode(a, sp, add) + simple_decode(b, sp, add));
    }
}

/// Decoding a single token gives its piece.
proof fn lemma_decode_one(t: TokenId, sp: SpecialTokenIds, add: bool)
    ensures
        simple_decode(seq![t], sp, add) == token_piece(t, sp, add),
{
    lemma_decode_push(Seq::empty(), t, sp, add);
    assert(Seq::<TokenId>::empty().push(t) =~= seq![t]);
    assert(simple_decode(Seq::<TokenId>::empty(), sp, add) =~= Seq::<char>::empty());
    assert(Seq::<char>::empty() + token_piece(t, sp, add) =~= token_piece(t, sp, add));
}

/// A character of the vocabulary decodes back from its token.
proof fn lemma_char_back(c: char)
    requires
        simple_char_id(c as u32) is Some,
    ensures
        simple_id_char(simple_char_id(c as u32)->0) == Some(c),
{
    let u = c as u32;
    if 32 <= u <= 126 {
        assert((u as u8) as u32 == u);
        assert(((u as u8) as char) as u32 == u);
        assert(((u as u8) as char) == c);
    }
}

/// Without specials in the way, the characters of `text` decode back from their tokens.
proof fn lemma_body_round_trip(text: Seq<char>, sp: SpecialTokenIds, add: bool)
    requires
        forall|i: int| 0 <= i < text.len() ==> simple_char_id(#[trigger] text[i] as u32) is Some,
        forall|i: int| 0 <= i < text.len() ==> !skipped(#[trigger] char_token(text[i], sp.unk), sp, add),
    ensures
        simple_decode(text.map_values(|c: char| char_token(c, sp.unk)), sp, add) == text,
    decreases text.len(),
{
    if text.len() > 0 {
        let tl = text.drop_last();
        let c = text.last();
        assert forall|i: int| 0 <= i < tl.len() implies simple_char_id(#[trigger] tl[i] as u32) is Some by {
            assert(tl[i] == text[i]);
        }
        assert forall|i: int| 0 <= i < tl.len() implies !skipped(#[trigger] char_token(tl[i], sp.unk), sp, add) by {
            assert(tl[i] == text[i]);
        }
        lemma_body_round_trip(tl, sp, add);
        let f = |c: char| char_token(c, sp.unk);
        assert(text.map_values(f) =~= tl.map_values(f).push(f(c)));
        lemma_decode_push(tl.map_values(f), f(c), sp, add);
        assert(simple_char_id(text[text.len() - 1] as u32) is Some);
        assert(!skipped(char_token(text[text.len() - 1], sp.unk), sp, add));
        lemma_char_back(c);
        assert(text =~= tl.push(c));
    } else {
        assert(text.map_values(|c: char| char_token(c, sp.unk)) =~= Seq::<TokenId>::empty());
        assert(simple_decode(Seq::<TokenId>::empty(), sp, add) =~= Seq::<char>::empty());
    }
}

/// Round trip: text made of vocabulary characters decodes back from its
/// encoding, provided no character's token is a special token that decoding
/// skips.
pub proof fn law_round_trip(text: Seq<char>, sp: SpecialTokenIds, add: bool)
    requires
        forall|i: int| 0 <= i < text.len() ==> simple_char_id(#[trigger] text[i] as u32) is Some,
        forall|i: int| 0 <= i < text.len() ==> !skipped(#[trigger] char_token(text[i], sp.unk), sp, add),
    ensures
        simple_decode(simple_encode(text, sp, add), sp, add) == text,
{
    lemma_body_round_trip(text, sp, add);
    let body = text.map_values(|c: char| char_token(c, sp.unk));
    if add {
        lemma_decode_append(seq![sp.bos] + body, seq![sp.eos], sp, add);
        lemma_decode_append(seq![sp.bos], body, sp, add);
        lemma_decode_one(sp.bos, sp, add);
        lemma_decode_one(sp.eos, sp, add);
        assert(simple_decode(simple_encode(text, sp, add), sp, add) =~= text);
    }
}

/// Law: every printable ASCII character (codes 32 to 126) has a token of its
/// own, its code minus 28, which decodes back to it.
pub proof fn law_printable_tokens(c: char, unk: TokenId)
    requires
        32 <= c as u32 <= 126,
    ensures
        char_token(c, unk) == (c as u32 - 28) as u32,
        simple_id_char((c as u32 - 28) as u32) == Some(c),
{
    let u = c as u32;
    let t = (u - 28) as u32;
    assert(t + 28 == u);
    assert(((t + 28) as u8) as u32 == u);
    assert((((t + 28) as u8) as char) as u32 == u);
}

/// Law: with the default special tokens, a printable ASCII text encodes to
/// BOS, then each character's code minus 28, then EOS; and that decodes
/// back to the text.
pub proof fn law_printable_round_trip(text: Seq<char>)
    requires
        forall|i: int| 0 <= i < text.len() ==> 32 <= #[trigger] text[i] as u32 <= 126,
    ensures
        ({
            let sp = SpecialTokenIds { bos: 1, eos: 2, pad: 0, unk: 3 };
            let e = simple_encode(text, sp, true);
            &&& e.len() == text.len() + 2
            &&& e[0] == 1
            &&& e[e.len() - 1] == 2
            &&& forall|i: int| 0 <= i < text.len() ==> e[i + 1] == (#[trigger] text[i] as u32 - 28) as u32
            &&& simple_decode(e, sp, true) == text
        }),
{
    let sp = SpecialTokenIds { bos: 1, eos: 2, pad: 0, unk: 3 };
    let e = simple_encode(text, sp, true);
    let body = text.map_values(|c: char| char_token(c, sp.unk));
    assert forall|i: int| 0 <= i < text.len() implies simple_char_id(#[trigger] text[i] as u32) is Some
        && !skipped(char_token(text[i], sp.unk), sp, true) && body[i] == (text[i] as u32 - 28) as u32 by {
        law_printable_tokens(text[i], sp.unk);
    }
    assert forall|i: int| 0 <= i < text.len() implies e[i + 1] == (#[trigger] text[i] as u32 - 28) as u32 by {
        assert(e[i + 1] == body[i]);
    }
    law_round_trip(text, sp, true);
}

/// Law: the tokenizer [`SimpleTokenizer::new`] builds (default special
/// tokens, added) encodes a printable ASCII text to BOS, each character's
/// code minus 28, and EOS, and decodes that back to the text.
pub proof fn law_new_tokenizer_printable(t: SimpleTokenizer, text: Seq<char>)
    requires
        t.specials() == (SpecialTokenIds { bos: 1, eos: 2, pad: 0, unk: 3 }),
        t.adds_specials(),
        forall|i: int| 0 <= i < text.len() ==> 32 <= #[trigger] text[i] as u32 <= 126,
    ensures
        t.encodes(text),
        t.encoded(text).len() == text.len() + 2,
        t.encoded(text)[0] == 1,
        t.encoded(text)[text.len() + 1int] == 2,
        forall|i: int| 0 <= i < text.len() ==> t.encoded(text)[i + 1] == (#[trigger] text[i] as u32 - 28) as u32,
        t.decodes(t.encoded(text)),
        t.decoded(t.encoded(text)) == text,
{
    law_printable_round_trip(text);
}

/// Law: newline, carriage return and tab have the tokens 99, 100 and 101,
/// which decode back to them; every other character outside printable ASCII
/// becomes `unk`.
pub proof fn law_whitespace_tokens(c: char, unk: TokenId)
    ensures
        c == '\n' ==> char_token(c, unk) == 99 && simple_id_char(99) == Some('\n'),
        c == '\r' ==> char_token(c, unk) == 100 && simple_id_char(100) == Some('\r'),
        c == '\t' ==> char_token(c, unk) == 101 && simple_id_char(101) == Some('\t'),
        !(32 <= c as u32 <= 126) && c != '\n' && c != '\r' && c != '\t' ==> char_token(c, unk) == unk,
{
}

/// Law: when special tokens are added, decoding skips BOS, EOS and PAD, and
/// any id outside the vocabulary; each other token gives its character.
pub proof fn law_decode_skips_specials(tokens: Seq<TokenId>, sp: SpecialTokenIds, t: TokenId)
    ensures
        simple_decode(tokens.push(sp.bos), sp, true) == simple_decode(tokens, sp, true),
        simple_decode(tokens.push(sp.eos), sp, true) == simple_decode(tokens, sp, true),
        simple_decode(tokens.push(sp.pad), sp, true) == simple_decode(tokens, sp, true),
        t > 101 || t < 4 ==> simple_decode(tokens.push(t), sp, true) == simple_decode(tokens, sp, true),
{
    lemma_decode_push(tokens, sp.bos, sp, true);
    lemma_decode_push(tokens, sp.eos, sp, true);
    lemma_decode_push(tokens, sp.pad, sp, true);
    lemma_decode_push(tokens, t, sp, true);
    assert(simple_decode(tokens, sp, true) + Seq::<char>::empty() =~= simple_decode(tokens, sp, true));
}

/// Token count: with special tokens, a text encodes to one token per
/// character plus BOS and EOS; without, to one per character.
pub proof fn law_token_count(text: Seq<char>, sp: SpecialTokenIds, add: bool)
    ensures
        simple_encode(text, sp, add).len() == text.len() + if add { 2int } else { 0int },
{
}

/// Law: a decoder the simple tokenizer hands out streams its decoding: at
/// every point, the text it has emitted is the tokenizer's one-shot decoding
/// of the tokens pushed through it (and finishing adds nothing, see
/// [`BoxedDecoder::finish`]).
pub proof fn law_handed_out_decoder_streams(t: SimpleTokenizer, d: BoxedDecoder)
    requires
        d.streams_exactly(),
        d.simple_rules() == Some((t.specials(), t.adds_specials())),
    ensures
        t.decodes(d.pushed()),
        d.emitted() == t.decoded(d.pushed()),
{
}

/// Streaming equivalence: the pieces the simple decoder emits token by token,
/// concatenated, are the one-shot decoding of the same tokens.
pub proof fn law_stream_equivalence(tokens: Seq<TokenId>, sp: SpecialTokenIds, add: bool)
    ensures
        pieces_text(tokens, sp, add) == simple_decode(tokens, sp, add),
    decreases tokens.len(),
{
    let f = |t: TokenId| token_piece(t, sp, add);
    if tokens.len() == 0 {
        assert(tokens.map_values(f) =~= Seq::<Seq<char>>::empty());
        assert(simple_decode(tokens, sp, add) =~= Seq::<char>::empty());
    } else {
        let tl = tokens.drop_last();
        let t = tokens.last();
        law_stream_equivalence(tl, sp, add);
        assert(tokens =~= tl.push(t));
        assert(tokens.map_values(f) =~= tl.map_values(f).push(f(t)));
        tl.map_values(f).lemma_flatten_push(f(t));
        lemma_decode_push(tl, t, sp, add);
    }
}

#[verifier::external_type_specification]
#[verifier::external_body]
pub struct ExTokenizer(Tokenizer);

/// Calls `Tokenizer::encode` without adding special tokens and returns the
/// ids of the encoding, or the error's text. Nothing is stated of the ids:
/// they depend on the tokenizer's contents, which this library does not see.
#[verifier::external_body]
fn hf_encode(inner: &Tokenizer, text: &str) -> Result<Vec<TokenId>, String> {
    match inner.encode(text, false) {
        Ok(encoding) => Ok(encoding.get_ids().to_vec()),
        Err(e) => Err(e.to_string()),
    }
}

/// Calls `Tokenizer::decode`, skipping special tokens, or returns the error's
/// text. Nothing is stated of the text, for the same reason.
#[verifier::external_body]
fn hf_decode(inner: &Tokenizer, ids: &[TokenId]) -> Result<String, String> {
    match inner.decode(ids, true) {
        Ok(text) => Ok(text),
        Err(e) => Err(e.to_string()),
    }
}

/// Calls `Tokenizer::get_vocab_size`, counting added tokens.
#[verifier::external_body]
fn hf_vocab_size(inner: &Tokenizer) -> usize {
    inner.get_vocab_size(true)
}

/// Calls `Tokenizer::token_to_id`.
#[verifier::external_body]
fn hf_token_to_id(inner: &Tokenizer, token: &str) -> Option<u32> {
    inner.token_to_id(token)
}

/// Calls `Tokenizer::clone`.
#[verifier::external_body]
fn hf_clone(inner: &Tokenizer) -> Tokenizer {
    inner.clone()
}

/// Calls `tokenizers::step_decode_stream`, skipping special tokens: it
/// appends `token` to `ids` and returns the text that became safe to emit,
/// or the error's text. When nothing is emitted, `ids` has grown by the
/// token and `prefix_index` is kept; when text is emitted, `ids` drops its
/// first `prefix_index` entries and `prefix_index` becomes its new length.
/// The function subtracts `prefix_index` from the grown length and drains
/// from it, so `prefix_index` may not exceed the length of `ids`. Nothing is
/// stated of the text, of `prefix`, or of the state after an error.
#[verifier::external_body]
fn hf_step_decode(
    inner: &Tokenizer,
    token: TokenId,
    ids: &mut Vec<TokenId>,
    prefix: &mut String,
    prefix_index: &mut usize,
) -> (r: Result<Option<String>, String>)
    requires
        *old(prefix_index) <= old(ids)@.len(),
    ensures
        r matches Ok(None) ==> final(ids)@ == old(ids)@.push(token) && *final(prefix_index) == *old(prefix_index),
        r matches Ok(Some(_)) ==> final(ids)@ == old(ids)@.push(token).skip(*old(prefix_index) as int)
            && *final(prefix_index) == final(ids)@.len(),
{
    match tokenizers::step_decode_stream(inner, token, true, ids, prefix, prefix_index) {
        Ok(chunk) => Ok(chunk),
        Err(e) => Err(e.to_string()),
    }
}

/// The first id found in `found`, from position `i` on.
pub open spec fn first_some_from(found: Seq<Option<u32>>, i: int) -> Option<u32>
    decreases found.len() - i,
{
    if i < 0 || i >= found.len() {
        None
    } else if found[i] is Some {
        found[i]
    } else {
        first_some_from(found, i + 1)
    }
}

/// The id of the first name whose lookup found one: `found` holds the
/// lookups of a list of names, in order.
pub fn first_token_id(found: &Vec<Option<u32>>) -> (r: Option<u32>)
    ensures
        r == first_some_from(found@, 0),
{
    let mut i: usize = 0;
    while i < found.len()
        invariant
            i <= found@.len(),
            first_some_from(found@, 0) == first_some_from(found@, i as int),
        decreases found@.len() - i,
    {
        match found[i] {
            Some(id) => {
                return Some(id);
            },
            None => {},
        }
        i = i + 1;
    }
    None
}

/// Looks up the id of each name in the vocabulary, in order.
fn lookup_ids(inner: &Tokenizer, names: &Vec<&str>) -> (r: Vec<Option<u32>>)
    ensures
        r@.len() == names@.len(),
{
    let mut found: Vec<Option<u32>> = Vec::new();
    let mut i: usize = 0;
    while i < names.len()
        invariant
            i <= names@.len(),
            found@.len() == i,
        decreases names@.len() - i,
    {
        found.push(hf_token_to_id(inner, names[i]));
        i = i + 1;
    }
    found
}

/// The values of strings.
pub open spec fn str_views(v: Seq<&str>) -> Seq<Seq<char>> {
    v.map_values(|s: &str| s@)
}

/// Common names of the beginning-of-sequence token, by priority.
pub open spec fn bos_names() -> Seq<Seq<char>> {
    seq!["<|endoftext|>"@, "<s>"@, "<bos>"@, "<BOS>"@]
}

/// Common names of the end-of-sequence token, by priority.
pub open spec fn eos_names() -> Seq<Seq<char>> {
    seq!["<|im_end|>"@, "</s>"@, "<eos>"@, "<EOS>"@, "<|endoftext|>"@]
}

/// Common names of the padding token, by priority.
pub open spec fn pad_names() -> Seq<Seq<char>> {
    seq!["<|endoftext|>"@, "<pad>"@, "<PAD>"@]
}

/// Common names of the beginning-of-sequence token, by priority.
fn bos_token_names() -> (r: Vec<&'static str>)
    ensures
        str_views(r@) == bos_names(),
{
    let r = vec!["<|endoftext|>", "<s>", "<bos>", "<BOS>"];
    proof {
        assert(str_views(r@) =~= bos_names());
    }
    r
}

/// Common names of the end-of-sequence token, by priority.
fn eos_token_names() -> (r: Vec<&'static str>)
    ensures
        str_views(r@) == eos_names(),
{
    let r = vec!["<|im_end|>", "</s>", "<eos>", "<EOS>", "<|endoftext|>"];
    proof {
        assert(str_views(r@) =~= eos_names());
    }
    r
}

/// Common names of the padding token, by priority.
fn pad_token_names() -> (r: Vec<&'static str>)
    ensures
        str_views(r@) == pad_names(),
{
    let r = vec!["<|endoftext|>", "<pad>", "<PAD>"];
    proof {
        assert(str_views(r@) =~= pad_names());
    }
    r
}

/// The special token ids after detection: each of BOS, EOS and PAD is the
/// first id found among the lookups of its names, or keeps its given id.
pub open spec fn detected_specials(
    given: SpecialTokenIds,
    bos_found: Seq<Option<u32>>,
    eos_found: Seq<Option<u32>>,
    pad_found: Seq<Option<u32>>,
) -> SpecialTokenIds {
    SpecialTokenIds {
        bos: match first_some_from(bos_found, 0) {
            Some(id) => id,
            None => given.bos,
        },
        eos: match first_some_from(eos_found, 0) {
            Some(id) => id,
            None => given.eos,
        },
        pad: match first_some_from(pad_found, 0) {
            Some(id) => id,
            None => given.pad,
        },
        unk: given.unk,
    }
}

/// The special token ids given the vocabulary lookups of the BOS, EOS and
/// PAD names (see [`detected_specials`]).
pub fn special_tokens_from_lookups(
    given: SpecialTokenIds,
    bos_found: &Vec<Option<u32>>,
    eos_found: &Vec<Option<u32>>,
    pad_found: &Vec<Option<u32>>,
) -> (r: SpecialTokenIds)
    ensures
        r == detected_specials(given, bos_found@, eos_found@, pad_found@),
{
    let mut special_tokens = given;
    match first_token_id(bos_found) {
        Some(id) => {
            special_tokens.bos = id;
        },
        None => {},
    }
    match first_token_id(eos_found) {
        Some(id) => {
            special_tokens.eos = id;
        },
        None => {},
    }
    match first_token_id(pad_found) {
        Some(id) => {
            special_tokens.pad = id;
        },
        None => {},
    }
    special_tokens
}

/// A tokenizer of the `tokenizers` crate.
#[derive(Debug)]
pub struct HuggingFaceTokenizer {
    inner: Tokenizer,
    special_tokens: SpecialTokenIds,
}

impl HuggingFaceTokenizer {
    /// The special token ids.
    pub closed spec fn specials(&self) -> SpecialTokenIds {
        self.special_tokens
    }

    /// The vocabulary this tokenizer wraps.
    pub closed spec fn vocabulary(&self) -> Tokenizer {
        self.inner
    }

    /// A tokenizer over a loaded vocabulary with the default special tokens
    /// (see [`Self::with_special_tokens_from_tokenizer`]).
    pub fn from_tokenizer(inner: Tokenizer) -> (r: Self)
        ensures
            r.vocabulary() == inner,
            r.specials().unk == 3,
    {
        Self::with_special_tokens_from_tokenizer(inner, SpecialTokenIds::default())
    }

    /// A tokenizer over a loaded vocabulary: BOS, EOS and PAD are the ids of
    /// the first of their common names that the vocabulary has; a token the
    /// vocabulary has under none of them keeps its id of `special_tokens`.
    pub fn with_special_tokens_from_tokenizer(inner: Tokenizer, special_tokens: SpecialTokenIds) -> (r: Self)
        ensures
            r.vocabulary() == inner,
            r.specials().unk == special_tokens.unk,
            exists|bos_found: Seq<Option<u32>>, eos_found: Seq<Option<u32>>, pad_found: Seq<Option<u32>>|
                bos_found.len() == bos_names().len() && eos_found.len() == eos_names().len() && pad_found.len()
                    == pad_names().len() && #[trigger] detected_specials(
                    special_tokens,
                    bos_found,
                    eos_found,
                    pad_found,
                ) == r.specials(),
    {
        let bos_found = lookup_ids(&inner, &bos_token_names());
        let eos_found = lookup_ids(&inner, &eos_token_names());
        let pad_found = lookup_ids(&inner, &pad_token_names());
        let detected = special_tokens_from_lookups(special_tokens, &bos_found, &eos_found, &pad_found);
        Self { inner, special_tokens: detected }
    }
}

impl Clone for HuggingFaceTokenizer {
    fn clone(&self) -> (r: Self)
        ensures
            r.specials() == self.specials(),
    {
        Self { inner: hf_clone(&self.inner), special_tokens: self.special_tokens }
    }
}

impl TokenizerTrait for HuggingFaceTokenizer {
    /// Encodes without adding special tokens.
    fn try_encode(&self, text: &str) -> Result<Vec<TokenId>, String> {
        hf_encode(&self.inner, text)
    }

    /// Decodes, skipping special tokens.
    fn try_decode(&self, tokens: &[TokenId]) -> Result<String, String> {
        hf_decode(&self.inner, tokens)
    }

    /// The full vocabulary, added tokens included.
    fn vocab_size(&self) -> u32 {
        hf_vocab_size(&self.inner) as u32
    }

    fn bos_token_id(&self) -> (r: TokenId)
        ensures
            r == self.specials().bos,
    {
        self.special_tokens.bos
    }

    fn eos_token_id(&self) -> (r: TokenId)
        ensures
            r == self.specials().eos,
    {
        self.special_tokens.eos
    }

    fn pad_token_id(&self) -> (r: TokenId)
        ensures
            r == self.specials().pad,
    {
        self.special_tokens.pad
    }

    /// A fresh [`HuggingFaceStreamDecoder`] over a copy of the vocabulary.
    fn create_decoder(&self) -> (r: BoxedDecoder)
        ensures
            r.pushed() == Seq::<TokenId>::empty(),
            r.emitted() == Seq::<char>::empty(),
    {
        BoxedDecoder::new(
            Box::new(
                HuggingFaceStreamDecoder {
                    inner: hf_clone(&self.inner),
                    stream_ids: Vec::new(),
                    stream_prefix: String::new(),
                    stream_prefix_index: 0,
                    all_tokens: Vec::new(),
                    emitted: String::new(),
                },
            ),
        )
    }
}

/// The rest of `decoded` after `emitted`: `None` when nothing is left, an
/// error when `emitted` is not a prefix of `decoded`.
pub open spec fn tail_after(decoded: Seq<char>, emitted: Seq<char>) -> Result<Option<Seq<char>>, Seq<char>> {
    if emitted.len() <= decoded.len() && decoded.take(emitted.len() as int) == emitted {
        if decoded.len() == emitted.len() {
            Ok(None)
        } else {
            Ok(Some(decoded.skip(emitted.len() as int)))
        }
    } else {
        Err("incremental tokenizer output is not a prefix of final decode"@)
    }
}

/// The rest of `decoded` after `emitted` (see [`tail_after`]).
pub fn split_tail(decoded: &str, emitted: &str) -> (r: Result<Option<String>, String>)
    ensures
        match (r, tail_after(decoded@, emitted@)) {
            (Ok(None), Ok(None)) => true,
            (Ok(Some(t)), Ok(Some(u))) => t@ == u,
            (Err(m), Err(n)) => m@ == n,
            _ => false,
        },
{
    let n = decoded.unicode_len();
    let m = emitted.unicode_len();
    let mut is_prefix = m <= n;
    let mut i: usize = 0;
    while is_prefix && i < m
        invariant
            n == decoded@.len(),
            m == emitted@.len(),
            i <= m,
            is_prefix ==> m <= n,
            is_prefix ==> forall|k: int| 0 <= k < i ==> decoded@[k] == emitted@[k],
            !is_prefix ==> !(m <= n && decoded@.take(m as int) == emitted@),
        decreases m - i + (if is_prefix { 1int } else { 0int }),
    {
        if decoded.get_char(i) != emitted.get_char(i) {
            proof {
                if m <= n && decoded@.take(m as int) == emitted@ {
                    assert(decoded@.take(m as int)[i as int] == decoded@[i as int]);
                }
            }
            is_prefix = false;
        } else {
            i = i + 1;
        }
    }
    if !is_prefix {
        proof {
            reveal_strlit("incremental tokenizer output is not a prefix of final decode");
        }
        return Err(String::from_str("incremental tokenizer output is not a prefix of final decode"));
    }
    proof {
        assert(decoded@.take(m as int) =~= emitted@);
    }
    if n == m {
        Ok(None)
    } else {
        let rest = decoded.substring_char(m, n);
        proof {
            assert(rest@ =~= decoded@.skip(m as int));
        }
        Ok(Some(String::from_str(rest)))
    }
}

/// Law: what the streaming decoder flushes completes what it emitted to the
/// one-shot decoding, exactly.
pub proof fn law_tail_completes(decoded: Seq<char>, emitted: Seq<char>)
    ensures
        tail_after(decoded, emitted) matches Ok(Some(t)) ==> emitted + t == decoded,
        tail_after(decoded, emitted) matches Ok(None) ==> emitted == decoded,
        tail_after(decoded, emitted) is Err <==> !(emitted.is_prefix_of(decoded)),
{
    if emitted.len() <= decoded.len() && decoded.take(emitted.len() as int) == emitted {
        assert(emitted + decoded.skip(emitted.len() as int) =~= decoded);
        assert(decoded.take(emitted.len() as int) =~= decoded.subrange(0, emitted.len() as int));
        if decoded.len() == emitted.len() {
            assert(emitted =~= decoded);
        }
    } else {
        if emitted.len() <= decoded.len() {
            assert(decoded.take(emitted.len() as int) =~= decoded.subrange(0, emitted.len() as int));
        }
    }
}

/// The incremental decoder of [`HuggingFaceTokenizer`]: the crate's step
/// decoder emits what is safe; at the end the rest of the one-shot decoding
/// of all tokens is flushed.
pub struct HuggingFaceStreamDecoder {
    inner: Tokenizer,
    stream_ids: Vec<TokenId>,
    stream_prefix: String,
    stream_prefix_index: usize,
    all_tokens: Vec<TokenId>,
    emitted: String,
}

impl HuggingFaceStreamDecoder {
    /// Every token pushed so far.
    pub closed spec fn tokens(&self) -> Seq<TokenId> {
        self.all_tokens@
    }

    /// Every piece of text emitted so far, concatenated.
    pub closed spec fn emitted_text(&self) -> Seq<char> {
        self.emitted@
    }
}

impl IncrementalDecoder for HuggingFaceStreamDecoder {
    /// Records the token and emits what the step decoder gives.
    fn push(&mut self, token: TokenId) -> (r: Result<Option<String>, String>)
        ensures
            final(self).tokens() == old(self).tokens().push(token),
            r matches Ok(Some(t)) ==> final(self).emitted_text() == old(self).emitted_text() + t@,
            !(r matches Ok(Some(_))) ==> final(self).emitted_text() == old(self).emitted_text(),
    {
        self.all_tokens.push(token);
        if self.stream_prefix_index > self.stream_ids.len() {
            // Only a failed step leaves the stream in this state.
            return Err(String::from_str("incremental decoder state is inconsistent after an earlier error"));
        }
        let chunk = match hf_step_decode(
            &self.inner,
            token,
            &mut self.stream_ids,
            &mut self.stream_prefix,
            &mut self.stream_prefix_index,
        ) {
            Ok(c) => c,
            Err(e) => {
                return Err(e);
            },
        };
        match &chunk {
            Some(text) => {
                self.emitted.append(text.as_str());
            },
            None => {},
        }
        Ok(chunk)
    }

    /// Nothing when no token was pushed; otherwise the rest of the one-shot
    /// decoding of every token after what was emitted (see [`split_tail`]),
    /// or the decoding's error.
    fn finish(&mut self) -> (r: Result<Option<String>, String>)
        ensures
            old(self).tokens().len() == 0 ==> r == Ok::<Option<String>, String>(None),
            r matches Ok(Some(t)) ==> t@.len() > 0,
    {
        if self.all_tokens.len() == 0 {
            return Ok(None);
        }
        let decoded = match hf_decode(&self.inner, self.all_tokens.as_slice()) {
            Ok(d) => d,
            Err(e) => {
                return Err(e);
            },
        };
        split_tail(decoded.as_str(), self.emitted.as_str())
    }
}

/// The error of a configuration that names a vocabulary file which was not loaded.
pub open spec fn not_loaded_message() -> Seq<char> {
    "tokenizer file was not loaded"@
}

/// The tokenizer a configuration names. A Hugging Face tokenizer is built
/// from `loaded`, the vocabulary read from the configured file (reading it
/// is the caller's part).
pub fn build_tokenizer(config: &EngineConfig, loaded: Option<Tokenizer>) -> (r: Result<Box<dyn TokenizerTrait>, EngineError>)
    ensures
        config.tokenizer.kind == TokenizerKind::Simple ==> r is Ok,
        config.tokenizer.kind == TokenizerKind::Simple ==> (r matches Ok(t) && (forall|x: Seq<char>|
            #![trigger t.encoded(x)]
            #![trigger t.encodes(x)]
            t.encodes(x) && t.encoded(x) == simple_encode(x, config.special_tokens, true)) && (forall|
            x: Seq<TokenId>,
        |
            #![trigger t.decoded(x)]
            #![trigger t.decodes(x)]
            t.decodes(x) && t.decoded(x) == simple_decode(x, config.special_tokens, true))),
        config.tokenizer.kind == TokenizerKind::HuggingFace && config.tokenizer.path is None
            ==> r == Err::<Box<dyn TokenizerTrait>, EngineError>(EngineError::Config(ConfigError::MissingTokenizerPath)),
        config.tokenizer.kind == TokenizerKind::HuggingFace && config.tokenizer.path is Some ==> (r is Ok <==> loaded is Some),
        config.tokenizer.kind == TokenizerKind::HuggingFace && config.tokenizer.path is Some && loaded is None
            ==> (r matches Err(EngineError::Tokenization(m)) && m@ == not_loaded_message()),
{
    match config.tokenizer.kind {
        TokenizerKind::Simple => Ok(Box::new(SimpleTokenizer::with_special_tokens(config.special_tokens))),
        TokenizerKind::HuggingFace => {
            match &config.tokenizer.path {
                None => Err(EngineError::Config(ConfigError::MissingTokenizerPath)),
                Some(_) => match loaded {
                    Some(inner) => Ok(
                        Box::new(HuggingFaceTokenizer::with_special_tokens_from_tokenizer(inner, config.special_tokens)),
                    ),
                    None => {
                        proof {
                            reveal_strlit("tokenizer file was not loaded");
                        }
                        Err(EngineError::Tokenization(String::from_str("tokenizer file was not loaded")))
                    },
                },
            }
        },
    }
}

} // verus!
