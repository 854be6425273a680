//! Turning text into token numbers and back, with the vocabulary and the merges of a
//! `tokenizer.json` document.

use vstd::prelude::*;
use vstd::hash_map::StringHashMap;
use vstd::utf8::encode_utf8;
use crate::format::{metas_model, MetaKV, MetaModel};
use crate::json::{json_document, parse_json, Json, JsonModel};
use crate::loader::meta_value;
use crate::text::{chars_of, same_text, text_of};

verus! {

/// One entry of a vocabulary.
#[derive(Debug, Clone)]
pub struct TokenEntry {
    pub id: u32,
    pub token: String,
}

/// A tokenizer.
pub struct HypnoTokenizer {
    /// Token numbers by token.
    pub vocab: StringHashMap<u32>,
    /// Tokens by number; empty where no token has the number.
    pub id_to_token: Vec<String>,
    /// The ranks of the pairs that are merged, by the two tokens with a space between them. A
    /// lower rank goes first.
    pub merges: StringHashMap<u32>,
    pub bos_token_id: Option<u32>,
    pub eos_token_id: Option<u32>,
    pub pad_token_id: Option<u32>,
    pub unk_token_id: Option<u32>,
}

/// The mathematical content of a [`HypnoTokenizer`].
pub struct TokenizerModel {
    pub vocab: Map<Seq<char>, u32>,
    pub tokens: Seq<Seq<char>>,
    pub merges: Map<Seq<char>, u32>,
    pub bos: Option<u32>,
    pub eos: Option<u32>,
    pub pad: Option<u32>,
    pub unk: Option<u32>,
}

impl View for HypnoTokenizer {
    type V = TokenizerModel;

    open spec fn view(&self) -> TokenizerModel {
        TokenizerModel {
            vocab: self.vocab@,
            tokens: crate::text::texts(self.id_to_token@),
            merges: self.merges@,
            bos: self.bos_token_id,
            eos: self.eos_token_id,
            pad: self.pad_token_id,
            unk: self.unk_token_id,
        }
    }
}

/// The lower 32 bits of a number.
pub open spec fn low_bits(n: u64) -> u32 {
    (n % 0x1_0000_0000) as u32
}

/// Token numbers by token, from the fields of the vocabulary.
pub open spec fn vocab_of(fields: Seq<(Seq<char>, JsonModel)>) -> Map<Seq<char>, u32>
    decreases fields.len(),
{
    if fields.len() == 0 {
        Map::empty()
    } else {
        vocab_of(fields.drop_last()).insert(
            fields.last().0,
            low_bits(fields.last().1.whole()->Some_0),
        )
    }
}

/// The largest token number, 0 where there is none.
pub open spec fn largest_id(fields: Seq<(Seq<char>, JsonModel)>) -> u32
    decreases fields.len(),
{
    if fields.len() == 0 {
        0
    } else {
        let rest = largest_id(fields.drop_last());
        let id = low_bits(fields.last().1.whole()->Some_0);
        if id > rest {
            id
        } else {
            rest
        }
    }
}

/// Tokens by number, from the first `n` fields: of several with one number the last.
pub open spec fn tokens_of(fields: Seq<(Seq<char>, JsonModel)>, size: nat) -> Seq<Seq<char>>
    decreases fields.len(),
{
    if fields.len() == 0 {
        Seq::new(size, |i: int| Seq::<char>::empty())
    } else {
        tokens_of(fields.drop_last(), size).update(
            low_bits(fields.last().1.whole()->Some_0) as int,
            fields.last().0,
        )
    }
}

/// Whether every token has a whole number.
pub open spec fn all_whole(fields: Seq<(Seq<char>, JsonModel)>) -> bool {
    forall|i: int| 0 <= i < fields.len() ==> (#[trigger] fields[i]).1.whole() is Some
}

/// How many spaces a text has.
pub open spec fn space_count(s: Seq<char>) -> nat
    decreases s.len(),
{
    if s.len() == 0 {
        0
    } else {
        space_count(s.drop_last()) + if s.last() == ' ' {
            1nat
        } else {
            0nat
        }
    }
}

/// The ranks of the merges: of each text with exactly one space its place in the list, the last
/// one where it occurs twice.
pub open spec fn merges_of(items: Seq<JsonModel>) -> Map<Seq<char>, u32>
    decreases items.len(),
{
    if items.len() == 0 {
        Map::empty()
    } else {
        let rest = merges_of(items.drop_last());
        match items.last().text() {
            Some(s) => if space_count(s) == 1 {
                rest.insert(s, low_bits((items.len() - 1) as u64))
            } else {
                rest
            },
            None => rest,
        }
    }
}

/// The elements of an array; none where it is no array.
pub open spec fn items_in(j: JsonModel) -> Seq<JsonModel> {
    match j {
        JsonModel::Array(items) => items,
        _ => Seq::empty(),
    }
}

/// The number of the last special token among `tokens` that reads `a` or `b`.
pub open spec fn added_id(tokens: Seq<JsonModel>, a: Seq<char>, b: Seq<char>) -> Option<u32>
    decreases tokens.len(),
{
    if tokens.len() == 0 {
        None
    } else {
        let t = tokens.last();
        match (
            t.member("special"@).flag(),
            t.member("content"@).text(),
            t.member("id"@).whole(),
        ) {
            (Some(true), Some(content), Some(id)) => if content == a || content == b {
                Some(low_bits(id))
            } else {
                added_id(tokens.drop_last(), a, b)
            },
            _ => added_id(tokens.drop_last(), a, b),
        }
    }
}

/// The number of a token, if it is in the vocabulary.
pub open spec fn number_of(vocab: Map<Seq<char>, u32>, token: Seq<char>) -> Option<u32> {
    if vocab.contains_key(token) {
        Some(vocab[token])
    } else {
        None
    }
}

/// The number of the token that the post-processor names under `key`.
pub open spec fn processor_id(
    root: JsonModel,
    vocab: Map<Seq<char>, u32>,
    key: Seq<char>,
) -> Option<u32> {
    match root.member("post_processor"@).member(key).text() {
        Some(name) => number_of(vocab, name),
        None => None,
    }
}

/// `a`, or `b` where there is nothing.
pub open spec fn first_of(a: Option<u32>, b: Option<u32>) -> Option<u32> {
    if a is Some {
        a
    } else {
        b
    }
}

/// The fields of the vocabulary of a document.
pub open spec fn vocab_fields(root: JsonModel) -> Seq<(Seq<char>, JsonModel)> {
    root.member("model"@).member("vocab"@)->Object_0
}

/// The tokenizer of a document.
pub open spec fn tokenizer_of(root: JsonModel) -> TokenizerModel {
    let fields = vocab_fields(root);
    let vocab = vocab_of(fields);
    let added = items_in(root.member("added_tokens"@));
    TokenizerModel {
        vocab,
        tokens: tokens_of(fields, largest_id(fields) as nat + 1),
        merges: merges_of(items_in(root.member("model"@).member("merges"@))),
        bos: first_of(
            first_of(added_id(added, "<s>"@, "<bos>"@), processor_id(root, vocab, "cls_token"@)),
            first_of(number_of(vocab, "<s>"@), number_of(vocab, "<bos>"@)),
        ),
        eos: first_of(
            first_of(added_id(added, "</s>"@, "<eos>"@), processor_id(root, vocab, "sep_token"@)),
            first_of(number_of(vocab, "</s>"@), number_of(vocab, "<eos>"@)),
        ),
        pad: first_of(added_id(added, "<pad>"@, "<pad>"@), number_of(vocab, "<pad>"@)),
        unk: first_of(added_id(added, "<unk>"@, "<unk>"@), number_of(vocab, "<unk>"@)),
    }
}

/// Why a tokenizer could not be made.
#[derive(Debug)]
pub enum TokenizerError {
    /// The text is no JSON document.
    Json(String),
    /// The document has no member "model".
    MissingModel,
    /// The model has no object "vocab".
    MissingVocab,
    /// The number of a token is no whole number.
    NonIntegerId,
    /// A table of all token numbers is too large for this machine.
    TooLarge,
    /// The metadata has no entry "tokenizer_json".
    MissingMetadata,
}

fn low_half(n: u64) -> (r: u32)
    ensures
        r == low_bits(n),
{
    (n % 0x1_0000_0000) as u32
}

/// The vocabulary and the largest number; `None` where a number is no whole number.
fn read_vocab(fields: &Vec<(String, Json)>, Ghost(all): Ghost<Seq<(Seq<char>, JsonModel)>>) -> (r: Option<
    (StringHashMap<u32>, u32),
>)
    requires
        all.len() == fields@.len(),
        forall|i: int|
            0 <= i < all.len() ==> #[trigger] all[i] == (fields@[i].0@, fields@[i].1@),
    ensures
        match r {
            Some(x) => all_whole(all) && x.0@ == vocab_of(all) && x.1 == largest_id(all),
            None => !all_whole(all),
        },
{
    let mut vocab: StringHashMap<u32> = StringHashMap::new();
    let mut largest: u32 = 0;
    let mut i: usize = 0;
    assert(all.take(0) =~= Seq::<(Seq<char>, JsonModel)>::empty());
    while i < fields.len()
        invariant
            i <= fields@.len() == all.len(),
            forall|k: int|
                0 <= k < all.len() ==> #[trigger] all[k] == (fields@[k].0@, fields@[k].1@),
            forall|k: int| 0 <= k < i ==> (#[trigger] all[k]).1.whole() is Some,
            vocab@ == vocab_of(all.take(i as int)),
            largest == largest_id(all.take(i as int)),
        decreases fields@.len() - i,
    {
        assert(all.take(i + 1).drop_last() =~= all.take(i as int));
        assert(all.take(i + 1).last() == all[i as int]);
        let id: u32 = match fields[i].1.as_u64() {
            Some(n) => low_half(n),
            None => {
                assert(all[i as int].1.whole() is None);
                return None;
            },
        };
        vocab.insert(fields[i].0.clone(), id);
        if id > largest {
            largest = id;
        }
        i = i + 1;
    }
    assert(all.take(i as int) =~= all);
    Some((vocab, largest))
}

proof fn lemma_ids_bounded(fields: Seq<(Seq<char>, JsonModel)>, i: int)
    requires
        0 <= i < fields.len(),
    ensures
        low_bits(fields[i].1.whole()->Some_0) <= largest_id(fields),
    decreases fields.len(),
{
    if i < fields.len() - 1 {
        lemma_ids_bounded(fields.drop_last(), i);
    }
}

/// Tokens by number.
fn read_tokens(
    fields: &Vec<(String, Json)>,
    largest: u32,
    Ghost(all): Ghost<Seq<(Seq<char>, JsonModel)>>,
) -> (r: Vec<String>)
    requires
        all.len() == fields@.len(),
        forall|i: int|
            0 <= i < all.len() ==> #[trigger] all[i] == (fields@[i].0@, fields@[i].1@),
        all_whole(all),
        largest == largest_id(all),
        largest < usize::MAX,
    ensures
        crate::text::texts(r@) == tokens_of(all, largest as nat + 1),
{
    let size: usize = largest as usize + 1;
    let mut tokens: Vec<String> = Vec::new();
    while tokens.len() < size
        invariant
            tokens@.len() <= size,
            forall|k: int|
                0 <= k < tokens@.len() ==> (#[trigger] tokens@[k])@ == Seq::<char>::empty(),
        decreases size - tokens@.len(),
    {
        tokens.push(String::new());
    }
    let mut i: usize = 0;
    assert(all.take(0) =~= Seq::<(Seq<char>, JsonModel)>::empty());
    assert(crate::text::texts(tokens@) =~= tokens_of(all.take(0), size as nat));
    while i < fields.len()
        invariant
            i <= fields@.len() == all.len(),
            forall|k: int|
                0 <= k < all.len() ==> #[trigger] all[k] == (fields@[k].0@, fields@[k].1@),
            all_whole(all),
            largest == largest_id(all),
            size == largest + 1,
            tokens@.len() == size,
            crate::text::texts(tokens@) == tokens_of(all.take(i as int), size as nat),
        decreases fields@.len() - i,
    {
        proof {
            assert(all.take(i + 1).drop_last() =~= all.take(i as int));
            assert(all.take(i + 1).last() == all[i as int]);
            lemma_ids_bounded(all, i as int);
        }
        let id: u32 = match fields[i].1.as_u64() {
            Some(n) => low_half(n),
            None => 0,
        };
        let ghost before = tokens@;
        let token = fields[i].0.clone();
        tokens[id as usize] = token;
        assert(crate::text::texts(tokens@) =~= crate::text::texts(before).update(id as int, token@));
        i = i + 1;
    }
    assert(all.take(i as int) =~= all);
    tokens
}

/// Whether a text has exactly one space.
fn has_one_space(s: &str) -> (r: bool)
    ensures
        r == (space_count(s@) == 1),
{
    let chars = chars_of(s);
    let mut count: usize = 0;
    let mut i: usize = 0;
    assert(s@.take(0) =~= Seq::<char>::empty());
    while i < chars.len()
        invariant
            chars@ == s@,
            count <= i <= chars@.len(),
            count == space_count(s@.take(i as int)),
        decreases chars@.len() - i,
    {
        assert(s@.take(i + 1).drop_last() =~= s@.take(i as int));
        if chars[i] == ' ' {
            count = count + 1;
        }
        i = i + 1;
    }
    assert(s@.take(i as int) =~= s@);
    count == 1
}

/// The ranks of the merges.
fn read_merges(j: Option<&Json>) -> (r: StringHashMap<u32>)
    ensures
        r@ == merges_of(items_in(crate::json::or_null(j))),
{
    let mut merges: StringHashMap<u32> = StringHashMap::new();
    match j {
        Some(v) => match v {
            Json::Array(items) => {
                let ghost all = v@->Array_0;
                let mut i: usize = 0;
                assert(all.take(0) =~= Seq::<JsonModel>::empty());
                while i < items.len()
                    invariant
                        v is Array && *items == v->Array_0,
                        all == v@->Array_0,
                        i <= items@.len() == all.len(),
                        merges@ == merges_of(all.take(i as int)),
                    decreases items@.len() - i,
                {
                    assert(all.take(i + 1).drop_last() =~= all.take(i as int));
                    assert(all.take(i + 1).last() == items@[i as int]@);
                    match items[i].as_str() {
                        Some(s) => {
                            if has_one_space(s) {
                                merges.insert(s.to_owned(), low_half(i as u64));
                            }
                        },
                        None => {},
                    }
                    i = i + 1;
                }
                assert(all.take(i as int) =~= all);
            },
            _ => {},
        },
        None => {},
    }
    merges
}

/// The number of the last special token that reads `a` or `b`.
fn find_added(j: Option<&Json>, a: &str, b: &str) -> (r: Option<u32>)
    ensures
        r == added_id(items_in(crate::json::or_null(j)), a@, b@),
{
    let mut found: Option<u32> = None;
    match j {
        Some(v) => match v {
            Json::Array(items) => {
                let ghost all = v@->Array_0;
                let mut i: usize = 0;
                assert(all.take(0) =~= Seq::<JsonModel>::empty());
                while i < items.len()
                    invariant
                        v is Array && *items == v->Array_0,
                        all == v@->Array_0,
                        i <= items@.len() == all.len(),
                        found == added_id(all.take(i as int), a@, b@),
                    decreases items@.len() - i,
                {
                    let t = &items[i];
                    assert(all.take(i + 1).drop_last() =~= all.take(i as int));
                    assert(all.take(i + 1).last() == t@);
                    let special: bool = match t.member_bool("special") {
                        Some(flag) => flag,
                        None => false,
                    };
                    if special {
                        match t.member_str("content") {
                            Some(content) => match t.member_u64("id") {
                                Some(id) => {
                                    if same_text(content, a) || same_text(content, b) {
                                        found = Some(low_half(id));
                                    }
                                },
                                None => {},
                            },
                            None => {},
                        }
                    }
                    i = i + 1;
                }
                assert(all.take(i as int) =~= all);
            },
            _ => {},
        },
        None => {},
    }
    found
}

fn find_number(vocab: &StringHashMap<u32>, token: &str) -> (r: Option<u32>)
    ensures
        r == number_of(vocab@, token@),
{
    match vocab.get(token) {
        Some(n) => Some(*n),
        None => None,
    }
}

fn find_processor(root: &Json, vocab: &StringHashMap<u32>, key: &str) -> (r: Option<u32>)
    ensures
        r == processor_id(root@, vocab@, key@),
{
    match root.get("post_processor") {
        Some(pp) => match pp.member_str(key) {
            Some(name) => find_number(vocab, name),
            None => None,
        },
        None => None,
    }
}

fn pick(a: Option<u32>, b: Option<u32>) -> (r: Option<u32>)
    ensures
        r == first_of(a, b),
{
    if a.is_some() {
        a
    } else {
        b
    }
}

/// `r` is what a document gives: its tokenizer, or what is wrong with it.
pub open spec fn is_document_result(
    root: JsonModel,
    r: Result<HypnoTokenizer, TokenizerError>,
) -> bool {
    let has_vocab = root.member("model"@).member("vocab"@) is Object;
    if !root.has_member("model"@) {
        r matches Err(e) && e is MissingModel
    } else if !has_vocab {
        r matches Err(e) && e is MissingVocab
    } else if !all_whole(vocab_fields(root)) {
        r matches Err(e) && e is NonIntegerId
    } else if largest_id(vocab_fields(root)) == usize::MAX {
        r matches Err(e) && e is TooLarge
    } else {
        r matches Ok(t) && t@ == tokenizer_of(root)
    }
}

/// `r` is what the text of a document gives.
pub open spec fn is_text_result(text: Seq<char>, r: Result<HypnoTokenizer, TokenizerError>) -> bool {
    match json_document(text) {
        Ok(root) => is_document_result(root, r),
        Err(message) => r matches Err(e) && (e matches TokenizerError::Json(m) && m@ == message),
    }
}

impl HypnoTokenizer {
    /// The tokenizer of a `tokenizer.json` document.
    pub fn from_document(root: &Json) -> (r: Result<HypnoTokenizer, TokenizerError>)
        ensures
            is_document_result(root@, r),
    {
        let model = match root.get("model") {
            Some(m) => m,
            None => {
                return Err(TokenizerError::MissingModel);
            },
        };
        let vocab_json = match model.get("vocab") {
            Some(v) => v,
            None => {
                return Err(TokenizerError::MissingVocab);
            },
        };
        let ghost all = vocab_fields(root@);
        let (vocab, id_to_token) = match vocab_json {
            Json::Object(fields) => {
                assert(all == vocab_json@->Object_0);
                let (vocab, largest) = match read_vocab(fields, Ghost(all)) {
                    Some(x) => x,
                    None => {
                        return Err(TokenizerError::NonIntegerId);
                    },
                };
                if largest as usize == usize::MAX {
                    return Err(TokenizerError::TooLarge);
                }
                let tokens = read_tokens(fields, largest, Ghost(all));
                (vocab, tokens)
            },
            _ => {
                return Err(TokenizerError::MissingVocab);
            },
        };
        let merges = read_merges(model.get("merges"));
        let added = root.get("added_tokens");
        let bos_token_id = pick(
            pick(find_added(added, "<s>", "<bos>"), find_processor(root, &vocab, "cls_token")),
            pick(find_number(&vocab, "<s>"), find_number(&vocab, "<bos>")),
        );
        let eos_token_id = pick(
            pick(find_added(added, "</s>", "<eos>"), find_processor(root, &vocab, "sep_token")),
            pick(find_number(&vocab, "</s>"), find_number(&vocab, "<eos>")),
        );
        let pad_token_id = pick(
            find_added(added, "<pad>", "<pad>"),
            find_number(&vocab, "<pad>"),
        );
        let unk_token_id = pick(
            find_added(added, "<unk>", "<unk>"),
            find_number(&vocab, "<unk>"),
        );
        Ok(
            HypnoTokenizer {
                vocab,
                id_to_token,
                merges,
                bos_token_id,
                eos_token_id,
                pad_token_id,
                unk_token_id,
            },
        )
    }
}

/// Whether a character is white space.
pub open spec fn is_space(c: char) -> bool {
    let n = c as u32;
    (0x9 <= n <= 0xD) || n == 0x20 || n == 0x85 || n == 0xA0 || n == 0x1680 || (0x2000 <= n
        <= 0x200A) || n == 0x2028 || n == 0x2029 || n == 0x202F || n == 0x205F || n == 0x3000
}

/// Whether a character is a punctuation mark of ASCII.
pub open spec fn is_punctuation(c: char) -> bool {
    let n = c as u32;
    (33 <= n <= 47) || (58 <= n <= 64) || (91 <= n <= 96) || (123 <= n <= 126)
}

/// Whether a character is white space.
pub fn whitespace(c: char) -> (r: bool)
    ensures
        r == is_space(c),
{
    let n: u32 = c as u32;
    (0x9 <= n && n <= 0xD) || n == 0x20 || n == 0x85 || n == 0xA0 || n == 0x1680 || (0x2000 <= n
        && n <= 0x200A) || n == 0x2028 || n == 0x2029 || n == 0x202F || n == 0x205F || n == 0x3000
}

fn punctuation(c: char) -> (r: bool)
    ensures
        r == is_punctuation(c),
{
    let n: u32 = c as u32;
    (33 <= n && n <= 47) || (58 <= n && n <= 64) || (91 <= n && n <= 96) || (123 <= n && n <= 126)
}

/// `words`, and `word` behind them if it is not empty.
pub open spec fn with_word(words: Seq<Seq<char>>, word: Seq<char>) -> Seq<Seq<char>> {
    if word.len() > 0 {
        words.push(word)
    } else {
        words
    }
}

/// The finished words of a text, and the word it ends in.
pub open spec fn words_upto(s: Seq<char>) -> (Seq<Seq<char>>, Seq<char>)
    decreases s.len(),
{
    if s.len() == 0 {
        (Seq::empty(), Seq::empty())
    } else {
        let (words, word) = words_upto(s.drop_last());
        let c = s.last();
        if is_space(c) {
            (with_word(words, word), Seq::empty())
        } else if is_punctuation(c) {
            (with_word(words, word).push(seq![c]), Seq::empty())
        } else {
            (words, word.push(c))
        }
    }
}

/// The words of a text: what white space separates, with each punctuation mark a word of its own.
pub open spec fn words_of(s: Seq<char>) -> Seq<Seq<char>> {
    with_word(words_upto(s).0, words_upto(s).1)
}

fn push_word(words: &mut Vec<String>, word: &Vec<char>)
    ensures
        crate::text::texts(final(words)@) == with_word(crate::text::texts(old(words)@), word@),
{
    if word.len() > 0 {
        let w = text_of(word.as_slice());
        words.push(w);
        assert(crate::text::texts(words@) =~= crate::text::texts(old(words)@).push(w@));
    }
}

/// Splits a text into words.
pub fn tokenize_words(text: &str) -> (words: Vec<String>)
    ensures
        crate::text::texts(words@) == words_of(text@),
{
    let chars = chars_of(text);
    let mut words: Vec<String> = Vec::new();
    let mut word: Vec<char> = Vec::new();
    let mut i: usize = 0;
    assert(text@.take(0) =~= Seq::<char>::empty());
    assert(crate::text::texts(words@) =~= Seq::<Seq<char>>::empty());
    while i < chars.len()
        invariant
            chars@ == text@,
            i <= chars@.len(),
            words_upto(text@.take(i as int)) == (crate::text::texts(words@), word@),
        decreases chars@.len() - i,
    {
        let c = chars[i];
        assert(text@.take(i + 1).drop_last() =~= text@.take(i as int));
        if whitespace(c) {
            push_word(&mut words, &word);
            word = Vec::new();
        } else if punctuation(c) {
            push_word(&mut words, &word);
            word = Vec::new();
            let mut one: Vec<char> = Vec::new();
            one.push(c);
            assert(one@ =~= seq![c]);
            push_word(&mut words, &one);
        } else {
            word.push(c);
        }
        i = i + 1;
    }
    assert(text@.take(i as int) =~= text@);
    push_word(&mut words, &word);
    words
}

/// The upper-case digit for a value below 16.
pub open spec fn upper_digit(d: nat) -> char {
    if d < 10 {
        (48 + d) as char
    } else {
        (55 + d) as char
    }
}

/// The token of a byte, such as "<0x0A>".
pub open spec fn byte_token(b: u8) -> Seq<char> {
    seq!['<', '0', 'x', upper_digit((b / 16) as nat), upper_digit((b % 16) as nat), '>']
}

fn upper_digit_char(d: u8) -> (c: char)
    requires
        d < 16,
    ensures
        c == upper_digit(d as nat),
{
    if d < 10 {
        (48 + d) as char
    } else {
        (55 + d) as char
    }
}

/// The token of a byte.
pub fn byte_symbol(b: u8) -> (s: String)
    ensures
        s@ == byte_token(b),
{
    let hi = upper_digit_char(b / 16);
    let lo = upper_digit_char(b % 16);
    let chars: [char; 6] = ['<', '0', 'x', hi, lo, '>'];
    assert(chars@ =~= byte_token(b));
    text_of(chars.as_slice())
}

/// The tokens of bytes.
pub open spec fn byte_tokens(bytes: Seq<u8>) -> Seq<Seq<char>> {
    Seq::new(bytes.len(), |i: int| byte_token(bytes[i]))
}

/// The number of a symbol: that of the vocabulary, else that of the unknown token, if there is
/// one.
pub open spec fn symbol_number(t: TokenizerModel, s: Seq<char>) -> Option<u32> {
    first_of(number_of(t.vocab, s), t.unk)
}

/// The numbers of symbols; those without one are left out.
pub open spec fn numbers_of(t: TokenizerModel, symbols: Seq<Seq<char>>) -> Seq<u32>
    decreases symbols.len(),
{
    if symbols.len() == 0 {
        Seq::empty()
    } else {
        let rest = numbers_of(t, symbols.drop_last());
        match symbol_number(t, symbols.last()) {
            Some(n) => rest.push(n),
            None => rest,
        }
    }
}

/// The numbers of words: of each its own, or those of its bytes where it has none.
pub open spec fn word_numbers(t: TokenizerModel, words: Seq<Seq<char>>) -> Seq<u32>
    decreases words.len(),
{
    if words.len() == 0 {
        Seq::empty()
    } else {
        let rest = word_numbers(t, words.drop_last());
        match number_of(t.vocab, words.last()) {
            Some(n) => rest.push(n),
            None => rest + numbers_of(t, byte_tokens(encode_utf8(words.last()))),
        }
    }
}

/// The key of a pair in the merges.
pub open spec fn pair_key(a: Seq<char>, b: Seq<char>) -> Seq<char> {
    a + " "@ + b
}

/// The rank of the pair of symbols at `i`; `u32::MAX` where it is not merged.
pub open spec fn rank_at(merges: Map<Seq<char>, u32>, symbols: Seq<Seq<char>>, i: int) -> u32 {
    let key = pair_key(symbols[i], symbols[i + 1]);
    if merges.contains_key(key) {
        merges[key]
    } else {
        u32::MAX
    }
}

/// The first place with the lowest rank among the first `n` pairs; `None` where none is merged.
pub open spec fn best_upto(merges: Map<Seq<char>, u32>, symbols: Seq<Seq<char>>, n: nat) -> Option<
    int,
>
    decreases n,
{
    if n == 0 {
        None
    } else {
        let best = best_upto(merges, symbols, (n - 1) as nat);
        let rank = rank_at(merges, symbols, n - 1);
        match best {
            Some(i) => if rank < rank_at(merges, symbols, i) {
                Some(n - 1)
            } else {
                best
            },
            None => if rank < u32::MAX {
                Some(n - 1)
            } else {
                None
            },
        }
    }
}

/// The pair that is merged next.
pub open spec fn best_pair(merges: Map<Seq<char>, u32>, symbols: Seq<Seq<char>>) -> Option<int> {
    if symbols.len() == 0 {
        None
    } else {
        best_upto(merges, symbols, (symbols.len() - 1) as nat)
    }
}

/// The symbols with the pair at `i` merged.
pub open spec fn merge_at(symbols: Seq<Seq<char>>, i: int) -> Seq<Seq<char>> {
    symbols.update(i, symbols[i] + symbols[i + 1]).remove(i + 1)
}

proof fn lemma_best_bounds(merges: Map<Seq<char>, u32>, symbols: Seq<Seq<char>>, n: nat)
    ensures
        best_upto(merges, symbols, n) matches Some(i) ==> 0 <= i < n && rank_at(merges, symbols, i)
            < u32::MAX,
    decreases n,
{
    if n > 0 {
        lemma_best_bounds(merges, symbols, (n - 1) as nat);
    }
}

/// The symbols when no pair is left to merge.
pub open spec fn merged_symbols(merges: Map<Seq<char>, u32>, symbols: Seq<Seq<char>>) -> Seq<
    Seq<char>,
>
    decreases symbols.len(),
{
    match best_pair(merges, symbols) {
        Some(i) => if 0 <= i < symbols.len() - 1 {
            merged_symbols(merges, merge_at(symbols, i))
        } else {
            symbols
        },
        None => symbols,
    }
}

/// What stands before the numbers of a text: that of the beginning, if there is one.
pub open spec fn beginning(t: TokenizerModel) -> Seq<u32> {
    match t.bos {
        Some(n) => seq![n],
        None => Seq::empty(),
    }
}

/// The numbers of a text: that of the beginning, then those of its words where there are no
/// merges, or those of its merged bytes.
pub open spec fn encoded(t: TokenizerModel, text: Seq<char>) -> Seq<u32> {
    if t.merges.is_empty() {
        beginning(t) + word_numbers(t, words_of(text))
    } else {
        beginning(t) + numbers_of(t, merged_symbols(t.merges, byte_tokens(encode_utf8(text))))
    }
}

/// The byte that two characters write in hexadecimal; a '+' may stand for the first.
pub open spec fn written_byte(a: u8, b: u8) -> Option<u8> {
    match (hex_value(a), hex_value(b)) {
        (Some(x), Some(y)) => Some((16 * x + y) as u8),
        (None, Some(y)) => if a == 0x2B {
            Some(y as u8)
        } else {
            None
        },
        _ => None,
    }
}

/// The value of a hexadecimal digit of ASCII.
pub open spec fn hex_value(c: u8) -> Option<nat> {
    if 0x30 <= c <= 0x39 {
        Some((c - 0x30) as nat)
    } else if 0x41 <= c <= 0x46 {
        Some((c - 0x37) as nat)
    } else if 0x61 <= c <= 0x66 {
        Some((c - 0x57) as nat)
    } else {
        None
    }
}

/// Whether a token stands for a byte.
pub open spec fn is_byte_token(s: Seq<char>) -> bool {
    crate::text::has_prefix(s, "<0x"@) && crate::text::has_suffix(s, ">"@)
}

/// Whether a token stands for no text.
pub open spec fn is_special_token(s: Seq<char>) -> bool {
    s == "<s>"@ || s == "<bos>"@ || s == "</s>"@ || s == "<eos>"@ || s == "<unk>"@ || s
        == "<pad>"@
}

/// A text with the marks of spaces replaced by spaces.
pub open spec fn with_spaces(s: Seq<char>) -> Seq<char> {
    Seq::new(
        s.len(),
        |i: int|
            if s[i] == '\u{0120}' {
                ' '
            } else {
                s[i]
            },
    )
}

/// The text that a token stands for.
pub open spec fn token_text(s: Seq<char>) -> Seq<char> {
    if is_byte_token(s) {
        let utf8 = encode_utf8(s);
        if utf8.len() >= 5 {
            match written_byte(utf8[3], utf8[4]) {
                Some(b) => seq![b as char],
                None => Seq::empty(),
            }
        } else {
            Seq::empty()
        }
    } else if is_special_token(s) {
        Seq::empty()
    } else {
        with_spaces(s)
    }
}

/// The text of token numbers; numbers that no token has stand for nothing.
pub open spec fn decoded(t: TokenizerModel, ids: Seq<u32>) -> Seq<char>
    decreases ids.len(),
{
    if ids.len() == 0 {
        Seq::empty()
    } else {
        decoded(t, ids.drop_last()) + if ids.last() < t.tokens.len() {
            token_text(t.tokens[ids.last() as int])
        } else {
            Seq::empty()
        }
    }
}

fn hex_digit(c: u8) -> (r: Option<u8>)
    ensures
        match r {
            Some(v) => hex_value(c) == Some(v as nat) && v < 16,
            None => hex_value(c) is None,
        },
{
    if 0x30 <= c && c <= 0x39 {
        Some(c - 0x30)
    } else if 0x41 <= c && c <= 0x46 {
        Some(c - 0x37)
    } else if 0x61 <= c && c <= 0x66 {
        Some(c - 0x57)
    } else {
        None
    }
}

fn parse_byte(a: u8, b: u8) -> (r: Option<u8>)
    ensures
        r == written_byte(a, b),
{
    match (hex_digit(a), hex_digit(b)) {
        (Some(x), Some(y)) => Some(16 * x + y),
        (None, Some(y)) => {
            if a == 0x2B {
                Some(y)
            } else {
                None
            }
        },
        _ => None,
    }
}

/// The text that a token stands for.
pub fn token_to_text(token: &str) -> (r: Vec<char>)
    ensures
        r@ == token_text(token@),
{
    let mut out: Vec<char> = Vec::new();
    if crate::text::starts_with(token, "<0x") && crate::text::ends_with(token, ">") {
        let bytes = token.as_bytes();
        if bytes.len() >= 5 {
            match parse_byte(bytes[3], bytes[4]) {
                Some(b) => {
                    out.push(b as char);
                },
                None => {},
            }
        }
        assert(out@ =~= token_text(token@));
    } else if same_text(token, "<s>") || same_text(token, "<bos>") || same_text(token, "</s>")
        || same_text(token, "<eos>") || same_text(token, "<unk>") || same_text(token, "<pad>") {
    } else {
        let chars = chars_of(token);
        let mut i: usize = 0;
        while i < chars.len()
            invariant
                chars@ == token@,
                i <= chars@.len(),
                out@ =~= with_spaces(token@).take(i as int),
            decreases chars@.len() - i,
        {
            if chars[i] == '\u{0120}' {
                out.push(' ');
            } else {
                out.push(chars[i]);
            }
            i = i + 1;
        }
        assert(out@ =~= with_spaces(token@));
    }
    out
}

impl HypnoTokenizer {
    /// Reads the text of a `tokenizer.json`.
    pub fn from_json(json: &str) -> (r: Result<HypnoTokenizer, TokenizerError>)
        ensures
            is_text_result(json@, r),
    {
        match parse_json(json) {
            Ok(root) => HypnoTokenizer::from_document(&root),
            Err(e) => Err(TokenizerError::Json(e)),
        }
    }

    /// Makes the tokenizer that the metadata of a file holds under "tokenizer_json".
    pub fn from_hypno_metadata(metadata: &[MetaKV]) -> (r: Result<HypnoTokenizer, TokenizerError>)
        ensures
            ({
                let found = meta_value(metas_model(metadata@), "tokenizer_json"@);
                match found {
                    Some(text) => is_text_result(text, r),
                    None => r matches Err(e) && e is MissingMetadata,
                }
            }),
    {
        let ghost all = metas_model(metadata@);
        let mut i: usize = 0;
        assert(all.take(0) =~= Seq::<MetaModel>::empty());
        while i < metadata.len()
            invariant
                all == metas_model(metadata@),
                i <= metadata@.len(),
                meta_value(all.take(i as int), "tokenizer_json"@) is None,
            decreases metadata@.len() - i,
        {
            assert(all.take(i + 1).drop_last() =~= all.take(i as int));
            assert(all.take(i + 1).last() == metadata@[i as int]@);
            if same_text(metadata[i].key.as_str(), "tokenizer_json") {
                proof {
                    crate::loader::lemma_meta_value_prefix(
                        all,
                        "tokenizer_json"@,
                        (i + 1) as nat,
                    );
                }
                return HypnoTokenizer::from_json(metadata[i].value.as_str());
            }
            i = i + 1;
        }
        assert(all.take(i as int) =~= all);
        Err(TokenizerError::MissingMetadata)
    }

    /// Appends the numbers of symbols.
    fn push_numbers(&self, ids: &mut Vec<u32>, symbols: &Vec<String>)
        ensures
            final(ids)@ == old(ids)@ + numbers_of(self@, crate::text::texts(symbols@)),
    {
        let ghost all = crate::text::texts(symbols@);
        let mut i: usize = 0;
        assert(all.take(0) =~= Seq::<Seq<char>>::empty());
        assert(ids@ =~= old(ids)@ + numbers_of(self@, all.take(0)));
        while i < symbols.len()
            invariant
                all == crate::text::texts(symbols@),
                i <= symbols@.len(),
                ids@ == old(ids)@ + numbers_of(self@, all.take(i as int)),
            decreases symbols@.len() - i,
        {
            let ghost before = ids@;
            assert(all.take(i + 1).drop_last() =~= all.take(i as int));
            assert(all.take(i + 1).last() == symbols@[i as int]@);
            match pick(find_number(&self.vocab, symbols[i].as_str()), self.unk_token_id) {
                Some(n) => {
                    ids.push(n);
                    assert(ids@ =~= old(ids)@ + numbers_of(self@, all.take(i + 1)));
                },
                None => {},
            }
            i = i + 1;
        }
        assert(all.take(i as int) =~= all);
    }

    /// The numbers of a text by its words.
    pub fn encode_word_level(&self, text: &str) -> (ids: Vec<u32>)
        ensures
            ids@ == beginning(self@) + word_numbers(self@, words_of(text@)),
    {
        let mut ids: Vec<u32> = Vec::new();
        match self.bos_token_id {
            Some(n) => {
                ids.push(n);
            },
            None => {},
        }
        let ghost start = beginning(self@);
        assert(ids@ =~= start);
        let words = tokenize_words(text);
        let ghost all = crate::text::texts(words@);
        let mut i: usize = 0;
        assert(all.take(0) =~= Seq::<Seq<char>>::empty());
        assert(ids@ =~= start + word_numbers(self@, all.take(0)));
        while i < words.len()
            invariant
                all == crate::text::texts(words@),
                i <= words@.len(),
                ids@ == start + word_numbers(self@, all.take(i as int)),
            decreases words@.len() - i,
        {
            let word = words[i].as_str();
            assert(all.take(i + 1).drop_last() =~= all.take(i as int));
            assert(all.take(i + 1).last() == word@);
            match find_number(&self.vocab, word) {
                Some(n) => {
                    ids.push(n);
                },
                None => {
                    let symbols = byte_symbols(word.as_bytes());
                    self.push_numbers(&mut ids, &symbols);
                },
            }
            assert(ids@ =~= start + word_numbers(self@, all.take(i + 1)));
            i = i + 1;
        }
        assert(all.take(i as int) =~= all);
        ids
    }

    fn pair_rank(&self, a: &str, b: &str) -> (r: u32)
        ensures
            r == (if self.merges@.contains_key(pair_key(a@, b@)) {
                self.merges@[pair_key(a@, b@)]
            } else {
                u32::MAX
            }),
    {
        let key = a.to_owned().concat(" ").concat(b);
        match self.merges.get(key.as_str()) {
            Some(rank) => *rank,
            None => u32::MAX,
        }
    }

    /// The pair of symbols that is merged next.
    fn find_best(&self, symbols: &Vec<String>) -> (r: Option<usize>)
        ensures
            match r {
                Some(i) => best_pair(self.merges@, crate::text::texts(symbols@)) == Some(i as int)
                    && i + 1 < symbols@.len(),
                None => best_pair(self.merges@, crate::text::texts(symbols@)) is None,
            },
    {
        let ghost all = crate::text::texts(symbols@);
        if symbols.len() == 0 {
            return None;
        }
        let mut best: Option<usize> = None;
        let mut best_rank: u32 = u32::MAX;
        let mut i: usize = 0;
        while i < symbols.len() - 1
            invariant
                all == crate::text::texts(symbols@),
                i <= symbols@.len() - 1,
                match best {
                    Some(k) => best_upto(self.merges@, all, i as nat) == Some(k as int) && k < i
                        && best_rank == rank_at(self.merges@, all, k as int) && best_rank
                        < u32::MAX,
                    None => best_upto(self.merges@, all, i as nat) is None && best_rank
                        == u32::MAX,
                },
            decreases symbols@.len() - i,
        {
            let rank: u32 = self.pair_rank(symbols[i].as_str(), symbols[i + 1].as_str());
            assert(rank == rank_at(self.merges@, all, i as int));
            if rank < best_rank {
                best_rank = rank;
                best = Some(i);
            }
            i = i + 1;
        }
        best
    }

    /// The numbers of a text by its bytes, merged pair by pair.
    pub fn encode_bpe(&self, text: &str) -> (ids: Vec<u32>)
        ensures
            ids@ == beginning(self@) + numbers_of(
                self@,
                merged_symbols(self.merges@, byte_tokens(encode_utf8(text@))),
            ),
    {
        let mut ids: Vec<u32> = Vec::new();
        match self.bos_token_id {
            Some(n) => {
                ids.push(n);
            },
            None => {},
        }
        assert(ids@ =~= beginning(self@));
        let mut symbols = byte_symbols(text.as_bytes());
        let ghost goal = merged_symbols(self.merges@, byte_tokens(encode_utf8(text@)));
        loop
            invariant
                merged_symbols(self.merges@, crate::text::texts(symbols@)) == goal,
            ensures
                crate::text::texts(symbols@) == goal,
            decreases symbols@.len(),
        {
            match self.find_best(&symbols) {
                Some(i) => {
                    let ghost before = symbols@;
                    let size: usize = symbols.len();
                    let merged = symbols[i].clone().concat(symbols[i + 1].as_str());
                    symbols[i] = merged;
                    symbols.remove(i + 1);
                    assert(crate::text::texts(symbols@) =~= merge_at(
                        crate::text::texts(before),
                        i as int,
                    ));
                },
                None => {
                    break;
                },
            }
        }
        self.push_numbers(&mut ids, &symbols);
        ids
    }

    /// The token numbers of a text.
    pub fn encode(&self, text: &str) -> (ids: Vec<u32>)
        ensures
            ids@ == encoded(self@, text@),
    {
        if self.merges.is_empty() {
            self.encode_word_level(text)
        } else {
            self.encode_bpe(text)
        }
    }

    /// The text of token numbers.
    pub fn decode(&self, ids: &[u32]) -> (s: String)
        ensures
            s@ == decoded(self@, ids@),
    {
        let mut out: Vec<char> = Vec::new();
        let mut i: usize = 0;
        assert(ids@.take(0) =~= Seq::<u32>::empty());
        while i < ids.len()
            invariant
                i <= ids@.len(),
                out@ == decoded(self@, ids@.take(i as int)),
            decreases ids@.len() - i,
        {
            let id: usize = ids[i] as usize;
            let ghost before = out@;
            assert(ids@.take(i + 1).drop_last() =~= ids@.take(i as int));
            assert(ids@.take(i + 1).last() == ids@[i as int]);
            if id < self.id_to_token.len() {
                let mut text = token_to_text(self.id_to_token[id].as_str());
                out.append(&mut text);
            } else {
                assert(out@ =~= before + Seq::<char>::empty());
            }
            i = i + 1;
        }
        assert(ids@.take(i as int) =~= ids@);
        text_of(out.as_slice())
    }

    /// The number of the token that starts a text.
    pub fn bos_token_id(&self) -> (r: Option<u32>)
        ensures
            r == self@.bos,
    {
        self.bos_token_id
    }

    /// The number of the token that ends a text.
    pub fn eos_token_id(&self) -> (r: Option<u32>)
        ensures
            r == self@.eos,
    {
        self.eos_token_id
    }

    /// The number of the token that fills up a text.
    pub fn pad_token_id(&self) -> (r: Option<u32>)
        ensures
            r == self@.pad,
    {
        self.pad_token_id
    }

    /// One more than the largest token number.
    pub fn vocab_size(&self) -> (r: usize)
        ensures
            r == self@.tokens.len(),
    {
        self.id_to_token.len()
    }
}

/// The tokens of bytes.
fn byte_symbols(bytes: &[u8]) -> (r: Vec<String>)
    ensures
        crate::text::texts(r@) == byte_tokens(bytes@),
{
    let mut out: Vec<String> = Vec::new();
    let mut i: usize = 0;
    while i < bytes.len()
        invariant
            i <= bytes@.len(),
            out@.len() == i,
            crate::text::texts(out@) =~= byte_tokens(bytes@).take(i as int),
        decreases bytes@.len() - i,
    {
        let ghost before = out@;
        out.push(byte_symbol(bytes[i]));
        assert(crate::text::texts(out@) =~= crate::text::texts(before).push(
            byte_token(bytes@[i as int]),
        ));
        i = i + 1;
    }
    assert(crate::text::texts(out@) =~= byte_tokens(bytes@));
    out
}

/// All symbols one after another.
pub open spec fn concatenated(symbols: Seq<Seq<char>>) -> Seq<char>
    decreases symbols.len(),
{
    if symbols.len() == 0 {
        Seq::empty()
    } else {
        concatenated(symbols.drop_last()) + symbols.last()
    }
}

proof fn lemma_concatenated_split(a: Seq<Seq<char>>, b: Seq<Seq<char>>)
    ensures
        concatenated(a + b) == concatenated(a) + concatenated(b),
    decreases b.len(),
{
    if b.len() == 0 {
        assert(a + b =~= a);
        assert(concatenated(a) + concatenated(b) =~= concatenated(a));
    } else {
        assert((a + b).drop_last() =~= a + b.drop_last());
        lemma_concatenated_split(a, b.drop_last());
        assert(concatenated(a + b) =~= concatenated(a) + (concatenated(b.drop_last()) + b.last()));
    }
}

proof fn lemma_merge_keeps_text(symbols: Seq<Seq<char>>, i: int)
    requires
        0 <= i < symbols.len() - 1,
    ensures
        concatenated(merge_at(symbols, i)) == concatenated(symbols),
{
    let front = symbols.subrange(0, i);
    let back = symbols.subrange(i + 2, symbols.len() as int);
    let a = symbols[i];
    let b = symbols[i + 1];
    assert(symbols =~= front + (seq![a, b] + back));
    assert(merge_at(symbols, i) =~= front + (seq![a + b] + back));
    lemma_concatenated_split(front, seq![a, b] + back);
    lemma_concatenated_split(seq![a, b], back);
    lemma_concatenated_split(front, seq![a + b] + back);
    lemma_concatenated_split(seq![a + b], back);
    reveal_with_fuel(concatenated, 3);
    assert(seq![a, b].drop_last() =~= seq![a]);
    assert(seq![a].drop_last() =~= Seq::<Seq<char>>::empty());
    assert(seq![a + b].drop_last() =~= Seq::<Seq<char>>::empty());
    assert(concatenated(seq![a, b]) =~= concatenated(seq![a + b]));
}

/// Merging changes no character: the symbols, one after another, stay the same text.
pub proof fn law_merging_keeps_text(merges: Map<Seq<char>, u32>, symbols: Seq<Seq<char>>)
    ensures
        concatenated(merged_symbols(merges, symbols)) == concatenated(symbols),
    decreases symbols.len(),
{
    if let Some(i) = best_pair(merges, symbols) {
        if 0 <= i < symbols.len() - 1 {
            lemma_merge_keeps_text(symbols, i);
            law_merging_keeps_text(merges, merge_at(symbols, i));
        }
    }
}

proof fn lemma_none_below(merges: Map<Seq<char>, u32>, symbols: Seq<Seq<char>>, n: nat, k: int)
    requires
        best_upto(merges, symbols, n) is None,
        0 <= k < n,
    ensures
        rank_at(merges, symbols, k) == u32::MAX,
    decreases n,
{
    if k < n - 1 {
        lemma_none_below(merges, symbols, (n - 1) as nat, k);
    }
}

/// Merging stops only when no pair is left that is merged.
pub proof fn law_merging_is_complete(merges: Map<Seq<char>, u32>, symbols: Seq<Seq<char>>, k: int)
    requires
        0 <= k < merged_symbols(merges, symbols).len() - 1,
    ensures
        rank_at(merges, merged_symbols(merges, symbols), k) == u32::MAX,
    decreases symbols.len(),
{
    match best_pair(merges, symbols) {
        Some(i) => {
            lemma_best_bounds(merges, symbols, (symbols.len() - 1) as nat);
            law_merging_is_complete(merges, merge_at(symbols, i), k);
        },
        None => {
            lemma_none_below(merges, symbols, (symbols.len() - 1) as nat, k);
        },
    }
}

proof fn lemma_best_is_least(
    merges: Map<Seq<char>, u32>,
    symbols: Seq<Seq<char>>,
    n: nat,
    k: int,
)
    requires
        0 <= k < n,
    ensures
        best_upto(merges, symbols, n) matches Some(i) ==> rank_at(merges, symbols, i) <= rank_at(
            merges,
            symbols,
            k,
        ) && (rank_at(merges, symbols, i) == rank_at(merges, symbols, k) ==> i <= k),
    decreases n,
{
    lemma_best_bounds(merges, symbols, n);
    lemma_best_bounds(merges, symbols, (n - 1) as nat);
    if k < n - 1 {
        lemma_best_is_least(merges, symbols, (n - 1) as nat, k);
        if best_upto(merges, symbols, (n - 1) as nat) is None {
            lemma_none_below(merges, symbols, (n - 1) as nat, k);
        }
    }
}

/// The pair that is merged next has the lowest rank, and of several with that rank it is the
/// first.
pub proof fn law_best_pair_is_least(merges: Map<Seq<char>, u32>, symbols: Seq<Seq<char>>, k: int)
    requires
        best_pair(merges, symbols) is Some,
        0 <= k < symbols.len() - 1,
    ensures
        ({
            let i = best_pair(merges, symbols)->Some_0;
            &&& 0 <= i < symbols.len() - 1
            &&& rank_at(merges, symbols, i) <= rank_at(merges, symbols, k)
            &&& rank_at(merges, symbols, i) == rank_at(merges, symbols, k) ==> i <= k
        }),
{
    lemma_best_bounds(merges, symbols, (symbols.len() - 1) as nat);
    lemma_best_is_least(merges, symbols, (symbols.len() - 1) as nat, k);
}

/// Whether a number is that of a token of the vocabulary, or that of the unknown token.
pub open spec fn is_known_number(t: TokenizerModel, n: u32) -> bool {
    t.vocab.contains_value(n) || t.unk == Some(n)
}

/// Whether all of these are numbers of the vocabulary, or that of the unknown token.
pub open spec fn all_known(t: TokenizerModel, ids: Seq<u32>) -> bool {
    forall|i: int| 0 <= i < ids.len() ==> is_known_number(t, #[trigger] ids[i])
}

proof fn lemma_symbol_numbers(t: TokenizerModel, symbols: Seq<Seq<char>>)
    ensures
        numbers_of(t, symbols).len() <= symbols.len(),
        all_known(t, numbers_of(t, symbols)),
    decreases symbols.len(),
{
    if symbols.len() > 0 {
        lemma_symbol_numbers(t, symbols.drop_last());
    }
}

proof fn lemma_merging_shortens(merges: Map<Seq<char>, u32>, symbols: Seq<Seq<char>>)
    ensures
        merged_symbols(merges, symbols).len() <= symbols.len(),
    decreases symbols.len(),
{
    if let Some(i) = best_pair(merges, symbols) {
        if 0 <= i < symbols.len() - 1 {
            lemma_merging_shortens(merges, merge_at(symbols, i));
        }
    }
}

/// How many bytes texts have.
pub open spec fn byte_count(texts: Seq<Seq<char>>) -> nat
    decreases texts.len(),
{
    if texts.len() == 0 {
        0
    } else {
        byte_count(texts.drop_last()) + encode_utf8(texts.last()).len()
    }
}

proof fn lemma_more_bytes(s: Seq<char>, c: char)
    ensures
        encode_utf8(s.push(c)).len() == encode_utf8(s).len() + encode_utf8(seq![c]).len(),
        encode_utf8(seq![c]).len() >= 1,
    decreases s.len(),
{
    reveal_with_fuel(encode_utf8, 2);
    if s.len() == 0 {
        assert(s.push(c) =~= seq![c]);
    } else {
        assert(s.push(c).drop_first() =~= s.drop_first().push(c));
        lemma_more_bytes(s.drop_first(), c);
    }
}

proof fn lemma_words_have_few_bytes(s: Seq<char>)
    ensures
        byte_count(words_upto(s).0) + encode_utf8(words_upto(s).1).len() <= encode_utf8(s).len(),
        forall|i: int|
            0 <= i < words_upto(s).0.len() ==> (#[trigger] words_upto(s).0[i]).len() > 0,
    decreases s.len(),
{
    reveal_with_fuel(encode_utf8, 2);
    if s.len() > 0 {
        let (words, word) = words_upto(s.drop_last());
        let c = s.last();
        lemma_words_have_few_bytes(s.drop_last());
        lemma_more_bytes(s.drop_last(), c);
        lemma_more_bytes(word, c);
        assert(s.drop_last().push(c) =~= s);
        assert(words.push(word).drop_last() =~= words);
        let whole = with_word(words, word);
        assert(byte_count(whole) <= byte_count(words) + encode_utf8(word).len());
        assert(whole.push(seq![c]).drop_last() =~= whole);
    }
}

proof fn lemma_word_numbers(t: TokenizerModel, words: Seq<Seq<char>>)
    requires
        forall|i: int| 0 <= i < words.len() ==> (#[trigger] words[i]).len() > 0,
    ensures
        word_numbers(t, words).len() <= byte_count(words),
        all_known(t, word_numbers(t, words)),
    decreases words.len(),
{
    if words.len() > 0 {
        let word = words.last();
        assert(word == words[words.len() - 1]);
        lemma_word_numbers(t, words.drop_last());
        lemma_symbol_numbers(t, byte_tokens(encode_utf8(word)));
        lemma_more_bytes(word.drop_last(), word.last());
        assert(word.drop_last().push(word.last()) =~= word);
    }
}

/// The numbers of a text start with that of the beginning, if there is one. No more numbers follow
/// than the text has bytes, and each of them is that of a token of the vocabulary, or that of the
/// unknown token.
pub proof fn law_encoding_is_of_the_vocabulary(t: TokenizerModel, text: Seq<char>)
    ensures
        ({
            let start = beginning(t);
            let ids = encoded(t, text);
            &&& start.len() <= ids.len() <= start.len() + encode_utf8(text).len()
            &&& ids.take(start.len() as int) == start
            &&& all_known(t, ids.skip(start.len() as int))
        }),
{
    let start = beginning(t);
    let rest = encoded(t, text).skip(start.len() as int);
    if t.merges.is_empty() {
        let words = words_of(text);
        let (whole, word) = words_upto(text);
        lemma_words_have_few_bytes(text);
        assert(whole.push(word).drop_last() =~= whole);
        lemma_word_numbers(t, words);
        assert(rest =~= word_numbers(t, words));
    } else {
        let symbols = byte_tokens(encode_utf8(text));
        lemma_merging_shortens(t.merges, symbols);
        lemma_symbol_numbers(t, merged_symbols(t.merges, symbols));
        assert(rest =~= numbers_of(t, merged_symbols(t.merges, symbols)));
    }
    assert(encoded(t, text) =~= start + rest);
}

/// An empty text has the number of the beginning alone, or none.
pub proof fn law_empty_text_has_no_numbers(t: TokenizerModel)
    ensures
        encoded(t, Seq::empty()) == beginning(t),
{
    reveal_with_fuel(encode_utf8, 2);
    let none = Seq::<char>::empty();
    assert(byte_tokens(encode_utf8(none)) =~= Seq::<Seq<char>>::empty());
    assert(words_of(none) =~= Seq::<Seq<char>>::empty());
    assert(encoded(t, none) =~= beginning(t));
}

/// Without merges the numbers of a text depend on its words alone.
pub proof fn law_encoding_goes_by_words(t: TokenizerModel, a: Seq<char>, b: Seq<char>)
    requires
        t.merges.is_empty(),
        words_of(a) == words_of(b),
    ensures
        encoded(t, a) == encoded(t, b),
{
}

/// Whether all characters are white space.
pub open spec fn all_spaces(s: Seq<char>) -> bool {
    forall|i: int| 0 <= i < s.len() ==> is_space(#[trigger] s[i])
}

/// Whether a character ends the word before it.
pub open spec fn ends_word(c: char) -> bool {
    is_space(c) || is_punctuation(c)
}

/// The words up to the end of `s`, after those in `at`.
spec fn words_on(at: (Seq<Seq<char>>, Seq<char>), s: Seq<char>) -> (Seq<Seq<char>>, Seq<char>)
    decreases s.len(),
{
    if s.len() == 0 {
        at
    } else {
        let (words, word) = words_on(at, s.drop_last());
        let c = s.last();
        if is_space(c) {
            (with_word(words, word), Seq::empty())
        } else if is_punctuation(c) {
            (with_word(words, word).push(seq![c]), Seq::empty())
        } else {
            (words, word.push(c))
        }
    }
}

proof fn lemma_words_on(a: Seq<char>, b: Seq<char>)
    ensures
        words_upto(a + b) == words_on(words_upto(a), b),
    decreases b.len(),
{
    if b.len() == 0 {
        assert(a + b =~= a);
    } else {
        assert((a + b).drop_last() =~= a + b.drop_last());
        lemma_words_on(a, b.drop_last());
    }
}

proof fn lemma_spaces_end_a_word(at: (Seq<Seq<char>>, Seq<char>), s: Seq<char>)
    requires
        s.len() > 0,
        all_spaces(s),
    ensures
        words_on(at, s) == (with_word(at.0, at.1), Seq::<char>::empty()),
    decreases s.len(),
{
    assert(is_space(s[s.len() - 1]));
    if s.len() > 1 {
        assert forall|i: int| 0 <= i < s.drop_last().len() implies is_space(
            #[trigger] s.drop_last()[i],
        ) by {
            assert(is_space(s[i]));
        }
        lemma_spaces_end_a_word(at, s.drop_last());
    } else {
        assert(words_on(at, s.drop_last()) == at);
    }
}

proof fn lemma_ended_word(at: (Seq<Seq<char>>, Seq<char>), s: Seq<char>)
    requires
        s.len() > 0,
        ends_word(s[0]),
    ensures
        words_on((with_word(at.0, at.1), Seq::<char>::empty()), s) == words_on(at, s),
    decreases s.len(),
{
    let ended = (with_word(at.0, at.1), Seq::<char>::empty());
    if s.len() > 1 {
        lemma_ended_word(at, s.drop_last());
    } else {
        assert(words_on(at, s.drop_last()) == at);
        assert(words_on(ended, s.drop_last()) == ended);
    }
}

/// Which white space separates words, and how much of it, does not matter: the words are the same,
/// and without merges so are the numbers.
pub proof fn law_white_space_is_all_alike(
    t: TokenizerModel,
    a: Seq<char>,
    first: Seq<char>,
    second: Seq<char>,
    b: Seq<char>,
)
    requires
        first.len() > 0,
        second.len() > 0,
        all_spaces(first),
        all_spaces(second),
    ensures
        words_of(a + first + b) == words_of(a + second + b),
        t.merges.is_empty() ==> encoded(t, a + first + b) == encoded(t, a + second + b),
{
    lemma_words_on(a, first);
    lemma_words_on(a, second);
    lemma_words_on(a + first, b);
    lemma_words_on(a + second, b);
    lemma_spaces_end_a_word(words_upto(a), first);
    lemma_spaces_end_a_word(words_upto(a), second);
}

/// White space at an end of a text, or next to white space or to a punctuation mark, does not
/// matter: the words are the same without it, and without merges so are the numbers.
pub proof fn law_white_space_beside_a_mark_is_nothing(
    t: TokenizerModel,
    a: Seq<char>,
    space: Seq<char>,
    b: Seq<char>,
)
    requires
        all_spaces(space),
        a.len() == 0 || ends_word(a.last()) || b.len() == 0 || ends_word(b[0]),
    ensures
        words_of(a + space + b) == words_of(a + b),
        t.merges.is_empty() ==> encoded(t, a + space + b) == encoded(t, a + b),
{
    let at = words_upto(a);
    if space.len() == 0 {
        assert(a + space =~= a);
    } else {
        lemma_words_on(a, space);
        lemma_words_on(a + space, b);
        lemma_words_on(a, b);
        lemma_spaces_end_a_word(at, space);
        if a.len() == 0 || ends_word(a.last()) {
            assert(at.1 =~= Seq::<char>::empty());
        } else if b.len() == 0 {
        } else {
            lemma_ended_word(at, b);
        }
    }
}

/// Whether each byte of ASCII has a token of its own, whose number no other token has.
pub open spec fn has_byte_tokens(t: TokenizerModel) -> bool {
    forall|b: u8|
        b < 128 ==> t.vocab.contains_key(#[trigger] byte_token(b)) && t.vocab[byte_token(b)]
            < t.tokens.len() && t.tokens[t.vocab[byte_token(b)] as int] == byte_token(b)
}

proof fn lemma_bytes_read_back(t: TokenizerModel, bytes: Seq<u8>)
    requires
        has_byte_tokens(t),
        forall|i: int| 0 <= i < bytes.len() ==> #[trigger] bytes[i] < 128,
    ensures
        decoded(t, numbers_of(t, byte_tokens(bytes))) == Seq::new(
            bytes.len(),
            |i: int| bytes[i] as char,
        ),
    decreases bytes.len(),
{
    let symbols = byte_tokens(bytes);
    if bytes.len() > 0 {
        let rest = bytes.drop_last();
        lemma_bytes_read_back(t, rest);
        assert(symbols.drop_last() =~= byte_tokens(rest));
        assert(bytes[bytes.len() - 1] < 128);
        assert(symbols.last() == byte_token(bytes.last()));
        law_byte_token_round_trip(bytes.last());
        let ids = numbers_of(t, symbols);
        assert(ids == numbers_of(t, symbols.drop_last()).push(t.vocab[byte_token(bytes.last())]));
        assert(ids.drop_last() =~= numbers_of(t, symbols.drop_last()));
    }
    assert(decoded(t, numbers_of(t, symbols)) =~= Seq::new(
        bytes.len(),
        |i: int| bytes[i] as char,
    ));
}

/// A text of ASCII characters whose bytes are not merged is read back from its numbers, where each
/// byte has a token of its own and the token of the beginning stands for no text.
pub proof fn law_text_of_bytes_reads_back(t: TokenizerModel, text: Seq<char>)
    requires
        vstd::utf8::is_ascii_chars(text),
        !t.merges.is_empty(),
        best_pair(t.merges, byte_tokens(encode_utf8(text))) is None,
        has_byte_tokens(t),
        t.bos matches Some(n) ==> n < t.tokens.len() && (t.tokens[n as int] == "<s>"@
            || t.tokens[n as int] == "<bos>"@),
    ensures
        decoded(t, encoded(t, text)) == text,
{
    let bytes = encode_utf8(text);
    vstd::utf8::is_ascii_chars_encode_utf8(text);
    assert forall|i: int| 0 <= i < bytes.len() implies #[trigger] bytes[i] < 128 && bytes[i] as char
        == text[i] by {
        assert(text[i] as u8 == bytes[i]);
    }
    lemma_bytes_read_back(t, bytes);
    let start = beginning(t);
    law_decoding_is_piecewise(t, start, numbers_of(t, byte_tokens(bytes)));
    reveal_strlit("<s>");
    reveal_strlit("<bos>");
    reveal_strlit("<0x");
    if let Some(n) = t.bos {
        assert(start.drop_last() =~= Seq::<u32>::empty());
        assert("<s>"@[1] == 's' && "<bos>"@[1] == 'b' && "<0x"@[1] == '0');
        assert(!is_byte_token(t.tokens[n as int]));
        assert(decoded(t, start.drop_last()) =~= Seq::<char>::empty());
        assert(start.last() == n);
        assert(token_text(t.tokens[n as int]) =~= Seq::<char>::empty());
        assert(decoded(t, start) =~= Seq::<char>::empty());
    }
    assert(decoded(t, encoded(t, text)) =~= text);
}

proof fn lemma_later_fields(fields: Seq<(Seq<char>, JsonModel)>, size: nat, k: int)
    requires
        0 <= k < fields.len(),
        largest_id(fields) < size,
        forall|j: int|
            k < j < fields.len() ==> (#[trigger] fields[j]).0 != fields[k].0 && low_bits(
                fields[j].1.whole()->Some_0,
            ) != low_bits(fields[k].1.whole()->Some_0),
    ensures
        vocab_of(fields).contains_key(fields[k].0),
        vocab_of(fields)[fields[k].0] == low_bits(fields[k].1.whole()->Some_0),
        tokens_of(fields, size)[low_bits(fields[k].1.whole()->Some_0) as int] == fields[k].0,
    decreases fields.len(),
{
    lemma_table_size(fields.drop_last(), size);
    lemma_ids_bounded(fields, k);
    if k < fields.len() - 1 {
        let last = fields[fields.len() - 1];
        assert(last.0 != fields[k].0);
        lemma_later_fields(fields.drop_last(), size, k);
    }
}

proof fn lemma_table_size(fields: Seq<(Seq<char>, JsonModel)>, size: nat)
    requires
        largest_id(fields) < size,
    ensures
        tokens_of(fields, size).len() == size,
    decreases fields.len(),
{
    if fields.len() > 0 {
        lemma_table_size(fields.drop_last(), size);
    }
}

/// In the tokenizer of a document a token is found under its number, if no later entry of the
/// vocabulary has its name or its number.
pub proof fn law_token_is_found_by_number(root: JsonModel, k: int)
    requires
        ({
            let fields = vocab_fields(root);
            &&& 0 <= k < fields.len()
            &&& forall|j: int|
                k < j < fields.len() ==> (#[trigger] fields[j]).0 != fields[k].0 && low_bits(
                    fields[j].1.whole()->Some_0,
                ) != low_bits(fields[k].1.whole()->Some_0)
        }),
    ensures
        ({
            let t = tokenizer_of(root);
            let name = vocab_fields(root)[k].0;
            &&& t.vocab.contains_key(name)
            &&& t.vocab[name] < t.tokens.len()
            &&& t.tokens[t.vocab[name] as int] == name
        }),
{
    let fields = vocab_fields(root);
    lemma_ids_bounded(fields, k);
    lemma_table_size(fields, largest_id(fields) as nat + 1);
    lemma_later_fields(fields, largest_id(fields) as nat + 1, k);
}

/// The texts of two lists of numbers, one after the other, are the text of both.
pub proof fn law_decoding_is_piecewise(t: TokenizerModel, a: Seq<u32>, b: Seq<u32>)
    ensures
        decoded(t, a + b) == decoded(t, a) + decoded(t, b),
    decreases b.len(),
{
    if b.len() == 0 {
        assert(a + b =~= a);
        assert(decoded(t, a) + decoded(t, b) =~= decoded(t, a));
    } else {
        assert((a + b).drop_last() =~= a + b.drop_last());
        law_decoding_is_piecewise(t, a, b.drop_last());
        let last = if b.last() < t.tokens.len() {
            token_text(t.tokens[b.last() as int])
        } else {
            Seq::empty()
        };
        assert(decoded(t, a + b) =~= decoded(t, a) + (decoded(t, b.drop_last()) + last));
    }
}

/// The token of a byte stands for the character with the number of the byte.
pub proof fn law_byte_token_round_trip(b: u8)
    ensures
        token_text(byte_token(b)) == seq![b as char],
{
    let s = byte_token(b);
    reveal_strlit("<0x");
    reveal_strlit(">");
    assert(s.subrange(0, 3) =~= "<0x"@);
    assert(s.subrange(5, 6) =~= ">"@);
    assert(vstd::utf8::is_ascii_chars(s));
    vstd::utf8::is_ascii_chars_encode_utf8(s);
    let utf8 = encode_utf8(s);
    assert(utf8.len() == 6);
    assert(utf8[3] == s[3] as u8 && utf8[4] == s[4] as u8);
    assert(hex_value(utf8[3]) == Some((b / 16) as nat));
    assert(hex_value(utf8[4]) == Some((b % 16) as nat));
}

/// Whether a character is a mark: one that prints in ASCII and is neither a letter nor a digit.
pub open spec fn is_mark(c: char) -> bool {
    &&& '!' <= c <= '~'
    &&& !('0' <= c <= '9')
    &&& !('A' <= c <= 'Z')
    &&& !('a' <= c <= 'z')
}

/// Whether a character separates words: the blank, the tabulators and the line ends of ASCII.
pub open spec fn is_blank(c: char) -> bool {
    c == ' ' || c == '\t' || c == '\n' || c == '\u{b}' || c == '\u{c}' || c == '\r'
}

/// Whether a character is a letter or a digit of ASCII.
pub open spec fn is_alphanumeric(c: char) -> bool {
    ('0' <= c <= '9') || ('A' <= c <= 'Z') || ('a' <= c <= 'z')
}

proof fn lemma_words_after(words: Seq<Seq<char>>, s: Seq<char>)
    ensures
        words_on((words, Seq::<char>::empty()), s) == (words + words_upto(s).0, words_upto(s).1),
    decreases s.len(),
{
    if s.len() == 0 {
        assert(words + Seq::<Seq<char>>::empty() =~= words);
    } else {
        lemma_words_after(words, s.drop_last());
        let (done, word) = words_upto(s.drop_last());
        assert(with_word(words + done, word) =~= words + with_word(done, word));
        assert((words + with_word(done, word)).push(seq![s.last()]) =~= words + with_word(
            done,
            word,
        ).push(seq![s.last()]));
    }
}

/// A mark is a word of its own, and ends the word before it: the words of a text with a mark are those
/// before it, the mark, and those behind it.
pub proof fn law_mark_is_a_word(a: Seq<char>, c: char, b: Seq<char>)
    requires
        is_mark(c),
    ensures
        words_of(a + seq![c] + b) == words_of(a) + seq![seq![c]] + words_of(b),
{
    let at = words_upto(a);
    let one = seq![c];
    assert(one.drop_last() =~= Seq::<char>::empty());
    lemma_words_on(a, one);
    lemma_words_on(a + one, b);
    assert(words_on(at, one.drop_last()) == at);
    let done = with_word(at.0, at.1).push(seq![c]);
    assert(words_upto(a + one) == (done, Seq::<char>::empty()));
    lemma_words_after(done, b);
    assert(words_of(a + one + b) =~= words_of(a) + seq![seq![c]] + words_of(b));
}

/// A blank ends the word before it and is no word: the words of a text with a blank are those before
/// it and those behind it.
pub proof fn law_blank_separates_words(a: Seq<char>, c: char, b: Seq<char>)
    requires
        is_blank(c),
    ensures
        words_of(a + seq![c] + b) == words_of(a) + words_of(b),
{
    let at = words_upto(a);
    let one = seq![c];
    assert(one.drop_last() =~= Seq::<char>::empty());
    lemma_words_on(a, one);
    lemma_words_on(a + one, b);
    assert(words_on(at, one.drop_last()) == at);
    let done = with_word(at.0, at.1);
    assert(words_upto(a + one) == (done, Seq::<char>::empty()));
    lemma_words_after(done, b);
    assert(words_of(a + one + b) =~= words_of(a) + words_of(b));
}

/// Letters and digits stay together: a text of them is one word.
pub proof fn law_letters_make_one_word(s: Seq<char>)
    requires
        s.len() > 0,
        forall|i: int| 0 <= i < s.len() ==> is_alphanumeric(#[trigger] s[i]),
    ensures
        words_of(s) == seq![s],
{
    lemma_plain_word(s);
    assert(words_of(s) =~= seq![s]);
}

proof fn lemma_plain_word(s: Seq<char>)
    requires
        forall|i: int| 0 <= i < s.len() ==> is_alphanumeric(#[trigger] s[i]),
    ensures
        words_upto(s) == (Seq::<Seq<char>>::empty(), s),
    decreases s.len(),
{
    if s.len() > 0 {
        assert(is_alphanumeric(s[s.len() - 1]));
        assert forall|i: int| 0 <= i < s.drop_last().len() implies is_alphanumeric(
            #[trigger] s.drop_last()[i],
        ) by {
            assert(is_alphanumeric(s[i]));
        }
        lemma_plain_word(s.drop_last());
        assert(s.drop_last().push(s.last()) =~= s);
    } else {
        assert(s =~= Seq::<char>::empty());
    }
}

proof fn lemma_joined_numbers(t: TokenizerModel, a: Seq<Seq<char>>, b: Seq<Seq<char>>)
    ensures
        word_numbers(t, a + b) == word_numbers(t, a) + word_numbers(t, b),
    decreases b.len(),
{
    if b.len() == 0 {
        assert(a + b =~= a);
        assert(word_numbers(t, a) + word_numbers(t, b) =~= word_numbers(t, a));
    } else {
        assert((a + b).drop_last() =~= a + b.drop_last());
        lemma_joined_numbers(t, a, b.drop_last());
        assert(word_numbers(t, a + b) =~= word_numbers(t, a) + word_numbers(t, b));
    }
}

proof fn lemma_known_word(t: TokenizerModel, w: Seq<char>)
    requires
        t.vocab.contains_key(w),
    ensures
        word_numbers(t, seq![w]) == seq![t.vocab[w]],
{
    reveal_with_fuel(word_numbers, 2);
    assert(seq![w].drop_last() =~= Seq::<Seq<char>>::empty());
    assert(word_numbers(t, seq![w]) =~= seq![t.vocab[w]]);
}

/// Without merges a text is encoded piece by piece where a mark of the vocabulary stands: the numbers
/// of what stands before it, its own, and those of what stands behind it.
pub proof fn law_mark_has_its_number(t: TokenizerModel, a: Seq<char>, c: char, b: Seq<char>)
    requires
        t.merges.is_empty(),
        is_mark(c),
        t.vocab.contains_key(seq![c]),
    ensures
        encoded(t, a + seq![c] + b) == encoded(t, a) + seq![t.vocab[seq![c]]] + encoded(t, b).skip(
            beginning(t).len() as int,
        ),
{
    law_mark_is_a_word(a, c, b);
    lemma_joined_numbers(t, words_of(a) + seq![seq![c]], words_of(b));
    lemma_joined_numbers(t, words_of(a), seq![seq![c]]);
    lemma_known_word(t, seq![c]);
    assert(encoded(t, b).skip(beginning(t).len() as int) =~= word_numbers(t, words_of(b)));
    assert(encoded(t, a + seq![c] + b) =~= encoded(t, a) + seq![t.vocab[seq![c]]] + encoded(
        t,
        b,
    ).skip(beginning(t).len() as int));
}

/// Without merges a word of the vocabulary and a mark of the vocabulary behind it are encoded as their
/// two numbers, behind that of the beginning if there is one.
pub proof fn law_word_and_mark_have_their_numbers(t: TokenizerModel, w: Seq<char>, c: char)
    requires
        t.merges.is_empty(),
        w.len() > 0,
        forall|i: int| 0 <= i < w.len() ==> is_alphanumeric(#[trigger] w[i]),
        is_mark(c),
        t.vocab.contains_key(w),
        t.vocab.contains_key(seq![c]),
    ensures
        encoded(t, w + seq![c]) == match t.bos {
            Some(n) => seq![n, t.vocab[w], t.vocab[seq![c]]],
            None => seq![t.vocab[w], t.vocab[seq![c]]],
        },
{
    let none = Seq::<char>::empty();
    assert(w + seq![c] + none =~= w + seq![c]);
    law_mark_is_a_word(w, c, none);
    law_letters_make_one_word(w);
    assert(words_of(none) =~= Seq::<Seq<char>>::empty());
    assert(words_of(w + seq![c]) =~= seq![w] + seq![seq![c]]);
    lemma_joined_numbers(t, seq![w], seq![seq![c]]);
    lemma_known_word(t, w);
    lemma_known_word(t, seq![c]);
    assert(encoded(t, w + seq![c]) =~= match t.bos {
        Some(n) => seq![n, t.vocab[w], t.vocab[seq![c]]],
        None => seq![t.vocab[w], t.vocab[seq![c]]],
    });
}

/// Without merges two texts with a blank between them are encoded as the one, then the other.
pub proof fn law_words_are_encoded_in_turn(t: TokenizerModel, a: Seq<char>, c: char, b: Seq<char>)
    requires
        t.merges.is_empty(),
        is_blank(c),
    ensures
        encoded(t, a + seq![c] + b) == encoded(t, a) + encoded(t, b).skip(
            beginning(t).len() as int,
        ),
{
    law_blank_separates_words(a, c, b);
    lemma_joined_numbers(t, words_of(a), words_of(b));
    assert(encoded(t, b).skip(beginning(t).len() as int) =~= word_numbers(t, words_of(b)));
    assert(encoded(t, a + seq![c] + b) =~= encoded(t, a) + encoded(t, b).skip(
        beginning(t).len() as int,
    ));
}

/// Without merges a word that is not in the vocabulary is encoded byte by byte: the number of the token
/// of each byte of its UTF-8, in their order.
pub proof fn law_unknown_word_is_encoded_by_bytes(t: TokenizerModel, w: Seq<char>)
    requires
        t.merges.is_empty(),
        w.len() > 0,
        forall|i: int| 0 <= i < w.len() ==> is_alphanumeric(#[trigger] w[i]),
        !t.vocab.contains_key(w),
        forall|b: u8| t.vocab.contains_key(#[trigger] byte_token(b)),
    ensures
        encoded(t, w) == beginning(t) + Seq::new(
            w.len(),
            |i: int| t.vocab[byte_token(w[i] as u8)],
        ),
{
    law_letters_make_one_word(w);
    assert(seq![w].drop_last() =~= Seq::<Seq<char>>::empty());
    assert forall|i: int| 0 <= i < w.len() implies '\0' <= #[trigger] w[i] <= '\u{7f}' by {
        assert(is_alphanumeric(w[i]));
    }
    vstd::utf8::is_ascii_chars_encode_utf8(w);
    let bytes = encode_utf8(w);
    lemma_byte_numbers(t, bytes);
    assert(numbers_of(t, byte_tokens(bytes)) =~= Seq::new(
        w.len(),
        |i: int| t.vocab[byte_token(w[i] as u8)],
    )) by {
        assert forall|i: int| 0 <= i < w.len() implies #[trigger] bytes[i] == w[i] as u8 by {
        }
    }
    reveal_with_fuel(word_numbers, 2);
    assert(word_numbers(t, seq![w]) =~= numbers_of(t, byte_tokens(bytes)));
}

proof fn lemma_byte_numbers(t: TokenizerModel, bytes: Seq<u8>)
    requires
        forall|b: u8| t.vocab.contains_key(#[trigger] byte_token(b)),
    ensures
        numbers_of(t, byte_tokens(bytes)) == Seq::new(
            bytes.len(),
            |i: int| t.vocab[byte_token(bytes[i])],
        ),
    decreases bytes.len(),
{
    if bytes.len() > 0 {
        lemma_byte_numbers(t, bytes.drop_last());
        assert(byte_tokens(bytes).drop_last() =~= byte_tokens(bytes.drop_last()));
        assert(t.vocab.contains_key(byte_token(bytes.last())));
    }
    assert(numbers_of(t, byte_tokens(bytes)) =~= Seq::new(
        bytes.len(),
        |i: int| t.vocab[byte_token(bytes[i])],
    ));
}

/// The token of a byte is written with its two hexadecimal digits, the upper one first, between "<0x"
/// and ">": the digits are those of which the value is the byte.
pub proof fn law_byte_token_is_hexadecimal(b: u8)
    ensures
        byte_token(b).len() == 6,
        byte_token(b).take(3) == "<0x"@,
        byte_token(b)[5] == '>',
        forall|c: char|
            #![trigger digit_value(c)]
            c == byte_token(b)[3] || c == byte_token(b)[4] ==> digit_value(c) is Some,
        16 * digit_value(byte_token(b)[3])->Some_0 + digit_value(byte_token(b)[4])->Some_0 == b,
{
    reveal_strlit("<0x");
    assert(byte_token(b).take(3) =~= "<0x"@);
}

/// The value of a digit, where 10 to 15 are written "A" to "F".
pub open spec fn digit_value(c: char) -> Option<int> {
    if '0' <= c <= '9' {
        Some(c as int - '0' as int)
    } else if 'A' <= c <= 'F' {
        Some(c as int - 'A' as int + 10)
    } else {
        None
    }
}

/// An ordinary token stands for itself, with a blank for each mark of a blank.
pub proof fn law_token_is_spelled_out(t: TokenizerModel, id: u32, i: int)
    requires
        id < t.tokens.len(),
        t.tokens[id as int].len() > 0,
        t.tokens[id as int][0] != '<',
        0 <= i < t.tokens[id as int].len(),
    ensures
        decoded(t, seq![id]).len() == t.tokens[id as int].len(),
        decoded(t, seq![id])[i] == if t.tokens[id as int][i] == '\u{120}' {
            ' '
        } else {
            t.tokens[id as int][i]
        },
{
    let s = t.tokens[id as int];
    reveal_strlit("<0x");
    reveal_strlit("<s>");
    reveal_strlit("<bos>");
    reveal_strlit("</s>");
    reveal_strlit("<eos>");
    reveal_strlit("<unk>");
    reveal_strlit("<pad>");
    assert(!is_byte_token(s)) by {
        if is_byte_token(s) {
            assert(s.subrange(0, 3)[0] == "<0x"@[0]);
        }
    }
    assert(!is_special_token(s));
    assert(seq![id].drop_last() =~= Seq::<u32>::empty());
    assert(decoded(t, seq![id].drop_last()) =~= Seq::<char>::empty());
    assert(decoded(t, seq![id]) =~= with_spaces(s));
}

/// The tokens of the beginning and the end, of what is unknown and of padding stand for no text.
pub proof fn law_special_tokens_are_silent(t: TokenizerModel, id: u32)
    requires
        id < t.tokens.len(),
        t.tokens[id as int] == "<s>"@ || t.tokens[id as int] == "</s>"@ || t.tokens[id as int]
            == "<unk>"@ || t.tokens[id as int] == "<pad>"@ || t.tokens[id as int] == "<bos>"@
            || t.tokens[id as int] == "<eos>"@,
    ensures
        decoded(t, seq![id]).len() == 0,
{
    let s = t.tokens[id as int];
    reveal_strlit("<0x");
    reveal_strlit("<s>");
    reveal_strlit("<bos>");
    reveal_strlit("</s>");
    reveal_strlit("<eos>");
    reveal_strlit("<unk>");
    reveal_strlit("<pad>");
    assert(!is_byte_token(s)) by {
        if is_byte_token(s) {
            assert(s.subrange(0, 3)[1] == "<0x"@[1]);
        }
    }
    assert(seq![id].drop_last() =~= Seq::<u32>::empty());
    assert(decoded(t, seq![id].drop_last()) =~= Seq::<char>::empty());
}

/// A number that no token has stands for no text.
pub proof fn law_unknown_numbers_are_silent(t: TokenizerModel, id: u32)
    requires
        id >= t.tokens.len(),
    ensures
        decoded(t, seq![id]).len() == 0,
{
    assert(seq![id].drop_last() =~= Seq::<u32>::empty());
    assert(decoded(t, seq![id].drop_last()) =~= Seq::<char>::empty());
}

proof fn lemma_one_space(a: Seq<char>, b: Seq<char>)
    requires
        forall|i: int| 0 <= i < a.len() ==> #[trigger] a[i] != ' ',
        forall|i: int| 0 <= i < b.len() ==> #[trigger] b[i] != ' ',
    ensures
        space_count(a) == 0,
        space_count(a + " "@ + b) == 1,
    decreases a.len() + b.len(),
{
    reveal_strlit(" ");
    if b.len() > 0 {
        let front = b.drop_last();
        assert forall|i: int| 0 <= i < front.len() implies #[trigger] front[i] != ' ' by {
            assert(b[i] != ' ');
        }
        lemma_one_space(a, front);
        assert((a + " "@ + b).drop_last() =~= a + " "@ + front);
        assert(b[b.len() - 1] != ' ');
    } else {
        assert(a + " "@ + b =~= a.push(' '));
        assert(a.push(' ').drop_last() =~= a);
        if a.len() > 0 {
            let front = a.drop_last();
            assert forall|i: int| 0 <= i < front.len() implies #[trigger] front[i] != ' ' by {
                assert(a[i] != ' ');
            }
            lemma_one_space(front, b);
            assert(a[a.len() - 1] != ' ');
        }
    }
}

proof fn lemma_rank_of_merge(items: Seq<JsonModel>, k: int, text: Seq<char>)
    requires
        0 <= k < items.len() <= 0x1_0000_0000,
        items[k].text() == Some(text),
        space_count(text) == 1,
        forall|j: int| k < j < items.len() ==> (#[trigger] items[j]).text() != Some(text),
    ensures
        merges_of(items).contains_key(text),
        merges_of(items)[text] == k,
    decreases items.len(),
{
    let n = items.len();
    if k < n - 1 {
        let front = items.drop_last();
        assert forall|j: int| k < j < front.len() implies (#[trigger] front[j]).text() != Some(
            text,
        ) by {
            assert(items[j] == front[j]);
        }
        lemma_rank_of_merge(front, k, text);
        assert(items[n - 1].text() != Some(text));
    } else {
        assert(low_bits((n - 1) as u64) == k);
    }
}

/// The list of merges says which symbols are merged, and in which order: an entry "a b" merges the
/// symbols "a" and "b", and its place in the list is its rank. Of two pairs the one whose entry
/// comes first is merged first.
pub proof fn law_merges_go_by_their_list(
    root: JsonModel,
    k: int,
    a: Seq<char>,
    b: Seq<char>,
    symbols: Seq<Seq<char>>,
    i: int,
)
    requires
        ({
            let items = items_in(root.member("model"@).member("merges"@));
            &&& 0 <= k < items.len() <= u32::MAX
            &&& items[k].text() == Some(a + " "@ + b)
            &&& forall|j: int|
                k < j < items.len() ==> (#[trigger] items[j]).text() != Some(a + " "@ + b)
        }),
        forall|j: int| 0 <= j < a.len() ==> #[trigger] a[j] != ' ',
        forall|j: int| 0 <= j < b.len() ==> #[trigger] b[j] != ' ',
        0 <= i < symbols.len() - 1,
        symbols[i] == a,
        symbols[i + 1] == b,
    ensures
        rank_at(tokenizer_of(root).merges, symbols, i) == k,
        best_pair(tokenizer_of(root).merges, symbols) is Some,
        rank_at(
            tokenizer_of(root).merges,
            symbols,
            best_pair(tokenizer_of(root).merges, symbols)->Some_0,
        ) <= k,
{
    let items = items_in(root.member("model"@).member("merges"@));
    let merges = tokenizer_of(root).merges;
    lemma_one_space(a, b);
    lemma_rank_of_merge(items, k, a + " "@ + b);
    assert(rank_at(merges, symbols, i) == k);
    let n = (symbols.len() - 1) as nat;
    if best_pair(merges, symbols) is None {
        lemma_none_below(merges, symbols, n, i);
    }
    law_best_pair_is_least(merges, symbols, i);
}

/// A merge puts two symbols together in the place of the first and leaves all others in their order.
pub proof fn law_merge_joins_two(symbols: Seq<Seq<char>>, i: int)
    requires
        0 <= i < symbols.len() - 1,
    ensures
        merge_at(symbols, i).len() == symbols.len() - 1,
        merge_at(symbols, i).take(i) == symbols.take(i),
        merge_at(symbols, i)[i] == symbols[i] + symbols[i + 1],
        merge_at(symbols, i).skip(i + 1) == symbols.skip(i + 2),
{
    assert(merge_at(symbols, i).take(i) =~= symbols.take(i));
    assert(merge_at(symbols, i).skip(i + 1) =~= symbols.skip(i + 2));
}

/// Where a document names no special tokens by number or for its post-processor, the special tokens are
/// those of the vocabulary with their usual names.
pub proof fn law_special_tokens_have_usual_names(root: JsonModel)
    requires
        items_in(root.member("added_tokens"@)).len() == 0,
        root.member("post_processor"@).member("cls_token"@).text() is None,
        root.member("post_processor"@).member("sep_token"@).text() is None,
    ensures
        ({
            let t = tokenizer_of(root);
            &&& t.vocab.contains_key("<s>"@) ==> t.bos == Some(t.vocab["<s>"@])
            &&& t.vocab.contains_key("</s>"@) ==> t.eos == Some(t.vocab["</s>"@])
            &&& t.vocab.contains_key("<pad>"@) ==> t.pad == Some(t.vocab["<pad>"@])
            &&& t.vocab.contains_key("<unk>"@) ==> t.unk == Some(t.vocab["<unk>"@])
            &&& !t.vocab.contains_key("<s>"@) && t.vocab.contains_key("<bos>"@) ==> t.bos == Some(
                t.vocab["<bos>"@],
            )
            &&& !t.vocab.contains_key("</s>"@) && t.vocab.contains_key("<eos>"@) ==> t.eos == Some(
                t.vocab["<eos>"@],
            )
        }),
{
}

/// A special token that a document adds last goes before what the vocabulary and the post-processor
/// say: its number is that of the token with its name.
pub proof fn law_added_tokens_go_first(root: JsonModel, name: Seq<char>, id: u64)
    requires
        ({
            let added = items_in(root.member("added_tokens"@));
            &&& added.len() > 0
            &&& added.last().member("special"@).flag() == Some(true)
            &&& added.last().member("content"@).text() == Some(name)
            &&& added.last().member("id"@).whole() == Some(id)
        }),
        id <= u32::MAX,
    ensures
        ({
            let t = tokenizer_of(root);
            &&& name == "<s>"@ || name == "<bos>"@ ==> t.bos == Some(id as u32)
            &&& name == "</s>"@ || name == "<eos>"@ ==> t.eos == Some(id as u32)
            &&& name == "<pad>"@ ==> t.pad == Some(id as u32)
            &&& name == "<unk>"@ ==> t.unk == Some(id as u32)
        }),
{
}

} // verus!
