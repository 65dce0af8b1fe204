//! Full-text search over the messages in a room.
//!
//! One inverted index: a message is split into words and each word gets a key
//! of `(shortroomid, word, pdu_id)`, so the words a query names can be looked
//! up by prefix and the sets of events they appear in intersected. The same
//! tokenizer splits a message being indexed and a query being run, which is
//! what makes the two agree on what a word is.

use crate::bytes::{be_bytes, u64_be_bytes};
use crate::text_order::texts;
use vstd::prelude::*;
use vstd::std_specs::iter::IteratorSpec;
use vstd::string::StringSliceAdditionalSpecFns;

verus! {

broadcast use {vstd::string::axiom_spec_iter, vstd::string::next_postcondition};

/// Longer words are not indexed: a word that long is a URL, a hash or a
/// base64 blob rather than something anyone will search for.
pub const WORD_MAX_LEN: usize = 50;

/// The byte that ends the word in an index key.
pub const SEP: u8 = 0xFF;

/// Whether `char::is_alphanumeric` holds of `c`.
pub uninterp spec fn alphanumeric(c: char) -> bool;

/// What `str::to_lowercase` makes of the text `s`.
pub uninterp spec fn lowercased(s: Seq<char>) -> Seq<char>;

/// `char::is_alphanumeric`.
///
/// Claimed: the result is the name `alphanumeric` applied to the character.
#[verifier::external_body]
fn is_alphanumeric(c: char) -> (r: bool)
    ensures
        r == alphanumeric(c),
{
    c.is_alphanumeric()
}

/// `str::to_lowercase`.
///
/// Claimed: the result is the name `lowercased` applied to the text.
#[verifier::external_body]
fn to_lowercase(s: &str) -> (r: String)
    ensures
        r@ == lowercased(s@),
{
    s.to_lowercase()
}

/// `String::push`.
///
/// Claimed, as std documents it: the character is appended to the string.
#[verifier::external_body]
pub(crate) fn push_char(s: &mut String, c: char)
    ensures
        final(s)@ == old(s)@.push(c),
{
    s.push(c)
}

/// The number of bytes UTF-8 spends on `c`.
pub open spec fn utf8_width(c: char) -> nat {
    if (c as u32) < 0x80 {
        1
    } else if (c as u32) < 0x800 {
        2
    } else if (c as u32) < 0x10000 {
        3
    } else {
        4
    }
}

/// The number of bytes UTF-8 spends on `s`.
pub open spec fn utf8_len(s: Seq<char>) -> nat
    decreases s.len(),
{
    if s.len() == 0 {
        0
    } else {
        utf8_len(s.drop_last()) + utf8_width(s.last())
    }
}

/// The pieces of `s` between the characters that are not alphanumeric, in
/// order, empty ones included, and the piece still open at its end.
pub open spec fn pieces(s: Seq<char>) -> (Seq<Seq<char>>, Seq<char>)
    decreases s.len(),
{
    if s.len() == 0 {
        (Seq::empty(), Seq::empty())
    } else {
        let (done, open) = pieces(s.drop_last());
        if alphanumeric(s.last()) {
            (done, open.push(s.last()))
        } else {
            (done.push(open), Seq::empty())
        }
    }
}

/// Whether a piece is indexed as a word: it is not empty and not longer than
/// `WORD_MAX_LEN` bytes.
pub open spec fn indexed(piece: Seq<char>) -> bool {
    piece.len() > 0 && utf8_len(piece) <= WORD_MAX_LEN
}

/// Whether a lowercased word fits the word part of an index key, which
/// holds `WORD_MAX_LEN` bytes. Lowercasing can lengthen a word, so a piece
/// short enough to be indexed may still not fit.
pub open spec fn fits_key(word: Seq<char>) -> bool {
    utf8_len(word) <= WORD_MAX_LEN
}

/// The words that the pieces `ps` give, lowercased: those of the indexed
/// pieces whose lowercased form fits a key.
pub open spec fn words_of(ps: Seq<Seq<char>>) -> Seq<Seq<char>>
    decreases ps.len(),
{
    if ps.len() == 0 {
        Seq::empty()
    } else if indexed(ps.last()) && fits_key(lowercased(ps.last())) {
        words_of(ps.drop_last()).push(lowercased(ps.last()))
    } else {
        words_of(ps.drop_last())
    }
}

/// The tokens of a text: its runs of alphanumeric characters that are
/// indexed, lowercased, in order, each fitting a key.
pub open spec fn tokens(s: Seq<char>) -> Seq<Seq<char>> {
    words_of(pieces(s).0.push(pieces(s).1))
}

/// The bytes UTF-8 spends on `c`.
fn char_width(c: char) -> (r: usize)
    ensures
        r == utf8_width(c),
{
    let code = c as u32;
    if code < 0x80 {
        1
    } else if code < 0x800 {
        2
    } else if code < 0x10000 {
        3
    } else {
        4
    }
}

/// The bytes UTF-8 spends on a prefix are no more than on the whole.
proof fn lemma_utf8_len_prefix(s: Seq<char>, k: int)
    requires
        0 <= k <= s.len(),
    ensures
        utf8_len(s.take(k)) <= utf8_len(s),
    decreases s.len(),
{
    if k < s.len() {
        assert(s.drop_last().take(k) == s.take(k));
        lemma_utf8_len_prefix(s.drop_last(), k);
    } else {
        assert(s.take(k) == s);
    }
}

/// Whether `s` fits the word part of a key, counting its UTF-8 bytes no
/// further than needed.
fn fits_key_exec(s: &str) -> (r: bool)
    ensures
        r == fits_key(s@),
{
    let cs = crate::text_order::chars_of(s);
    let mut total: usize = 0;
    let mut i: usize = 0;
    while i < cs.len()
        invariant
            i <= cs.len(),
            cs@ == s@,
            total == utf8_len(cs@.take(i as int)),
            total <= WORD_MAX_LEN,
        decreases cs.len() - i,
    {
        proof {
            assert(cs@.take(i + 1).drop_last() == cs@.take(i as int));
            assert(cs@.take(i + 1).last() == cs@[i as int]);
        }
        total = total + char_width(cs[i]);
        if total > WORD_MAX_LEN {
            proof {
                lemma_utf8_len_prefix(s@, i + 1);
            }
            return false;
        }
        i += 1;
    }
    proof {
        assert(cs@.take(i as int) == s@);
    }
    true
}

/// Every word of some pieces fits a key.
pub proof fn lemma_words_fit_keys(ps: Seq<Seq<char>>)
    ensures
        forall|i: int| 0 <= i < words_of(ps).len() ==> fits_key(#[trigger] words_of(ps)[i]),
    decreases ps.len(),
{
    if ps.len() > 0 {
        let rest = words_of(ps.drop_last());
        lemma_words_fit_keys(ps.drop_last());
        assert forall|i: int| 0 <= i < words_of(ps).len() implies fits_key(#[trigger] words_of(ps)[i]) by {
            if i < rest.len() {
                assert(words_of(ps)[i] == rest[i]);
            }
        }
    }
}

/// Adds the piece `piece`, `bytes` long, lowercased, to `words` if it is
/// indexed and its lowercased form fits a key.
fn finish_piece(words: &mut Vec<String>, piece: &String, bytes: usize)
    requires
        (bytes <= WORD_MAX_LEN) == (utf8_len(piece@) <= WORD_MAX_LEN),
    ensures
        final(words)@.len() >= old(words)@.len(),
        final(words)@.subrange(0, old(words)@.len() as int) == old(words)@,
        if indexed(piece@) && fits_key(lowercased(piece@)) {
            &&& final(words)@.len() == old(words)@.len() + 1
            &&& final(words)@.last()@ == lowercased(piece@)
        } else {
            final(words)@ == old(words)@
        },
{
    if !piece.as_str().is_empty() && bytes <= WORD_MAX_LEN {
        let word = to_lowercase(piece.as_str());
        if fits_key_exec(word.as_str()) {
            words.push(word);
        }
    }
}

/// A text made only of alphanumeric characters is one open piece.
proof fn lemma_pieces_of_run(w: Seq<char>)
    requires
        forall|i: int| 0 <= i < w.len() ==> alphanumeric(#[trigger] w[i]),
    ensures
        pieces(w) == (Seq::<Seq<char>>::empty(), w),
    decreases w.len(),
{
    if w.len() > 0 {
        assert forall|i: int| 0 <= i < w.drop_last().len() implies alphanumeric(#[trigger] w.drop_last()[i]) by {
            assert(w.drop_last()[i] == w[i]);
        }
        lemma_pieces_of_run(w.drop_last());
        assert(alphanumeric(w[w.len() - 1]));
        assert(w.drop_last().push(w.last()) =~= w);
    }
}

/// After a text that ends between pieces, the pieces of what follows are
/// added on.
proof fn lemma_pieces_after_break(x: Seq<char>, b: Seq<char>)
    requires
        pieces(x).1 == Seq::<char>::empty(),
    ensures
        pieces(x + b) == (pieces(x).0 + pieces(b).0, pieces(b).1),
    decreases b.len(),
{
    if b.len() == 0 {
        assert(x + b =~= x);
        assert(pieces(x).0 + Seq::<Seq<char>>::empty() =~= pieces(x).0);
    } else {
        lemma_pieces_after_break(x, b.drop_last());
        assert((x + b).drop_last() =~= x + b.drop_last());
        assert((x + b).last() == b.last());
        let pb = pieces(b.drop_last());
        assert(pieces(x).0 + pb.0.push(pb.1) =~= (pieces(x).0 + pb.0).push(pb.1));
    }
}

/// The words of pieces one after another are the words of each, in turn.
proof fn lemma_words_of_concat(p: Seq<Seq<char>>, q: Seq<Seq<char>>)
    ensures
        words_of(p + q) == words_of(p) + words_of(q),
    decreases q.len(),
{
    if q.len() == 0 {
        assert(p + q =~= p);
        assert(words_of(p) + Seq::<Seq<char>>::empty() =~= words_of(p));
    } else {
        lemma_words_of_concat(p, q.drop_last());
        assert((p + q).drop_last() =~= p + q.drop_last());
        assert((p + q).last() == q.last());
        assert((words_of(p) + words_of(q.drop_last())).push(lowercased(q.last()))
            =~= words_of(p) + words_of(q.drop_last()).push(lowercased(q.last())));
    }
}

/// A text without characters has no tokens.
pub proof fn lemma_tokens_of_nothing()
    ensures
        tokens(Seq::<char>::empty()) == Seq::<Seq<char>>::empty(),
{
    let e = Seq::<char>::empty();
    assert(pieces(e) == (Seq::<Seq<char>>::empty(), e));
    let ps = pieces(e).0.push(pieces(e).1);
    assert(ps.drop_last() =~= Seq::<Seq<char>>::empty());
    assert(ps.last() == e);
    assert(!indexed(e));
    assert(words_of(Seq::<Seq<char>>::empty()) == Seq::<Seq<char>>::empty());
}

/// A word is its own token: a non-empty run of alphanumeric characters,
/// of any length down to one character, gives exactly one token, itself
/// lowercased, when it is at most `WORD_MAX_LEN` bytes and its lowercased
/// form fits a key, and none otherwise.
pub proof fn lemma_tokens_of_word(w: Seq<char>)
    requires
        w.len() > 0,
        forall|i: int| 0 <= i < w.len() ==> alphanumeric(#[trigger] w[i]),
    ensures
        tokens(w) == if utf8_len(w) <= WORD_MAX_LEN && fits_key(lowercased(w)) {
            seq![lowercased(w)]
        } else {
            Seq::<Seq<char>>::empty()
        },
{
    lemma_pieces_of_run(w);
    let ps = Seq::<Seq<char>>::empty().push(w);
    assert(pieces(w).0.push(pieces(w).1) == ps);
    assert(ps.drop_last() =~= Seq::<Seq<char>>::empty());
    assert(ps.last() == w);
    assert(words_of(Seq::<Seq<char>>::empty()) == Seq::<Seq<char>>::empty());
    assert(indexed(w) == (utf8_len(w) <= WORD_MAX_LEN));
    assert(Seq::<Seq<char>>::empty().push(lowercased(w)) =~= seq![lowercased(w)]);
}

/// Splitting a text at a character that is not alphanumeric splits its
/// tokens: those of the part before, then those of the part after. With the
/// two laws above this fixes the tokens of every text: each maximal run of
/// alphanumeric characters, in order, gives its token.
pub proof fn lemma_tokens_split(a: Seq<char>, c: char, b: Seq<char>)
    requires
        !alphanumeric(c),
    ensures
        tokens(a.push(c) + b) == tokens(a) + tokens(b),
{
    let x = a.push(c);
    assert(x.drop_last() =~= a);
    assert(x.last() == c);
    lemma_pieces_after_break(x, b);
    let pa = pieces(a);
    let pb = pieces(b);
    assert(pieces(x + b).0.push(pieces(x + b).1) =~= pa.0.push(pa.1) + pb.0.push(pb.1));
    lemma_words_of_concat(pa.0.push(pa.1), pb.0.push(pb.1));
}

/// Splits a text into the tokens used as keys in the inverted index; each
/// fits the word part of a key.
pub fn tokenize(body: &str) -> (r: Vec<String>)
    ensures
        texts(r@) == tokens(body@),
        forall|i: int| 0 <= i < r.len() ==> utf8_len((#[trigger] r@[i])@) <= WORD_MAX_LEN,
{
    let mut words: Vec<String> = Vec::new();
    let mut piece = String::new();
    let mut bytes: usize = 0;
    let mut chars = body.chars();
    let ghost mut n: int = 0;
    proof {
        assert(body@.take(0) == Seq::<char>::empty());
    }
    loop
        invariant
            0 <= n <= body@.len(),
            chars.obeys_prophetic_iter_laws(),
            chars.remaining() == body@.skip(n),
            pieces(body@.take(n)).1 == piece@,
            utf8_len(piece@) <= WORD_MAX_LEN ==> bytes == utf8_len(piece@),
            utf8_len(piece@) > WORD_MAX_LEN ==> bytes > WORD_MAX_LEN,
            bytes <= WORD_MAX_LEN + 4,
            texts(words@) == words_of(pieces(body@.take(n)).0),
        ensures
            pieces(body@).1 == piece@,
            utf8_len(piece@) <= WORD_MAX_LEN ==> bytes == utf8_len(piece@),
            utf8_len(piece@) > WORD_MAX_LEN ==> bytes > WORD_MAX_LEN,
            texts(words@) == words_of(pieces(body@).0),
        decreases body@.len() - n,
    {
        let ghost before = chars.remaining();
        match chars.next() {
            Some(c) => {
                proof {
                    assert(before.len() > 0);
                    assert(c == body@[n]);
                    assert(body@.take(n + 1).drop_last() == body@.take(n));
                    assert(body@.take(n + 1).last() == c);
                    assert(chars.remaining() == body@.skip(n + 1));
                }
                if is_alphanumeric(c) {
                    let w = char_width(c);
                    let ghost old_piece = piece@;
                    push_char(&mut piece, c);
                    proof {
                        assert(piece@.drop_last() == old_piece);
                    }
                    if bytes <= WORD_MAX_LEN {
                        bytes = bytes + w;
                    }
                } else {
                    let ghost done = pieces(body@.take(n)).0;
                    let ghost before_words = words@;
                    finish_piece(&mut words, &piece, bytes);
                    proof {
                        assert(done.push(piece@).drop_last() == done);
                        assert(done.push(piece@).last() == piece@);
                        if indexed(piece@) && fits_key(lowercased(piece@)) {
                            assert(words@ == before_words.push(words@.last()));
                            assert(texts(words@) == texts(before_words).push(lowercased(piece@)));
                        }
                    }
                    piece = String::new();
                    bytes = 0;
                }
                proof {
                    n = n + 1;
                }
            },
            None => {
                proof {
                    assert(before.len() == 0);
                    assert(body@.take(n) == body@);
                }
                break;
            },
        }
    }
    let ghost done = pieces(body@).0;
    let ghost before_words = words@;
    finish_piece(&mut words, &piece, bytes);
    proof {
        assert(done.push(piece@).drop_last() == done);
        assert(done.push(piece@).last() == piece@);
        if indexed(piece@) && fits_key(lowercased(piece@)) {
            assert(words@ == before_words.push(words@.last()));
            assert(texts(words@) == texts(before_words).push(lowercased(piece@)));
        }
        assert(tokens(body@) == words_of(done.push(piece@)));
        lemma_words_fit_keys(done.push(piece@));
        assert forall|i: int| 0 <= i < words.len() implies utf8_len((#[trigger] words@[i])@) <= WORD_MAX_LEN by {
            assert(texts(words@)[i] == words@[i]@);
        }
    }
    words
}

/// The key prefix of one word in one room: the room's short id, big-endian,
/// the word's bytes, then the separator.
pub fn make_prefix(shortroomid: u64, word: &str) -> (r: Vec<u8>)
    ensures
        r@ == be_bytes(shortroomid) + word.spec_bytes() + seq![SEP],
{
    let head_bytes = u64_be_bytes(shortroomid);
    let mut key: Vec<u8> = Vec::new();
    let mut j: usize = 0;
    while j < 8
        invariant
            j <= 8,
            head_bytes@ == be_bytes(shortroomid),
            key@ == head_bytes@.take(j as int),
        decreases 8 - j,
    {
        key.push(head_bytes[j]);
        proof {
            assert(head_bytes@.take(j + 1) == head_bytes@.take(j as int).push(head_bytes@[j as int]));
        }
        j += 1;
    }
    proof {
        assert(head_bytes@.take(8) == head_bytes@);
    }
    let ghost head = key@;
    let bytes = word.as_bytes();
    let mut i: usize = 0;
    while i < bytes.len()
        invariant
            i <= bytes.len(),
            bytes@ == word.spec_bytes(),
            key@ == head + bytes@.take(i as int),
        decreases bytes.len() - i,
    {
        key.push(bytes[i]);
        proof {
            assert(bytes@.take(i + 1) == bytes@.take(i as int).push(bytes@[i as int]));
        }
        i += 1;
    }
    proof {
        assert(bytes@.take(i as int) == bytes@);
    }
    key.push(SEP);
    key
}

/// The key one word of one event is indexed under: the word's prefix, then
/// the event's id.
pub fn make_tokenid(shortroomid: u64, word: &str, pdu_id: &[u8]) -> (r: Vec<u8>)
    ensures
        r@ == be_bytes(shortroomid) + word.spec_bytes() + seq![SEP] + pdu_id@,
{
    let mut key = make_prefix(shortroomid, word);
    let ghost head = key@;
    let mut i: usize = 0;
    while i < pdu_id.len()
        invariant
            i <= pdu_id.len(),
            key@ == head + pdu_id@.take(i as int),
        decreases pdu_id.len() - i,
    {
        key.push(pdu_id[i]);
        proof {
            assert(pdu_id@.take(i + 1) == pdu_id@.take(i as int).push(pdu_id@[i as int]));
        }
        i += 1;
    }
    proof {
        assert(pdu_id@.take(i as int) == pdu_id@);
    }
    key
}

/// The length of a word's key prefix, which is where the event id starts in
/// its keys; it saturates rather than overflow.
pub fn prefix_len(word: &str) -> (r: usize)
    ensures
        r == if 8 + word.len() + 1 <= usize::MAX {
            (8 + word.len() + 1) as usize
        } else {
            usize::MAX
        },
{
    8usize.saturating_add(word.len()).saturating_add(1)
}

/// Every key one word of one room is indexed under starts with that word's
/// prefix, which is what makes a prefix scan find them all.
pub proof fn lemma_tokenid_extends_prefix(shortroomid: u64, word: Seq<u8>, pdu_id: Seq<u8>)
    ensures
        ({
            let prefix = be_bytes(shortroomid) + word + seq![SEP];
            let key = be_bytes(shortroomid) + word + seq![SEP] + pdu_id;
            &&& key.take(prefix.len() as int) == prefix
            &&& key.skip(prefix.len() as int) == pdu_id
        }),
{
    let prefix = be_bytes(shortroomid) + word + seq![SEP];
    let key = prefix + pdu_id;
    assert(key.take(prefix.len() as int) =~= prefix);
    assert(key.skip(prefix.len() as int) =~= pdu_id);
}

} // verus!
