//! The rules of the chat service: how a request becomes a prompt, and how answers are made up.

use vstd::prelude::*;
use crate::order::{lemma_lookup, lemma_lookup_at, text_less, TextMap};
use crate::text::{digits, has_suffix, hexadecimal, strip_suffix, texts};

verus! {

/// One message of a chat.
#[derive(Debug, Clone)]
pub struct ChatMessage {
    pub role: String,
    pub content: String,
}

/// The lines of messages: the role, a colon and the content.
pub open spec fn chat_lines(messages: Seq<ChatMessage>) -> Seq<char>
    decreases messages.len(),
{
    if messages.len() == 0 {
        Seq::empty()
    } else {
        chat_lines(messages.drop_last()) + messages.last().role@ + ": "@ + messages.last().content@
            + "\n"@
    }
}

/// The prompt of a chat: its messages, and the role that is to go on.
pub fn build_prompt(messages: &[ChatMessage]) -> (s: String)
    ensures
        s@ == chat_lines(messages@) + "assistant:"@,
{
    let mut s: String = String::new();
    let mut i: usize = 0;
    assert(messages@.take(0) =~= Seq::<ChatMessage>::empty());
    assert(s@ =~= Seq::<char>::empty());
    while i < messages.len()
        invariant
            i <= messages@.len(),
            s@ == chat_lines(messages@.take(i as int)),
        decreases messages@.len() - i,
    {
        let m = &messages[i];
        s.append(m.role.as_str());
        s.append(": ");
        s.append(m.content.as_str());
        s.append("\n");
        assert(messages@.take(i + 1).drop_last() =~= messages@.take(i as int));
        assert(messages@.take(i + 1).last() == messages@[i as int]);
        i = i + 1;
    }
    assert(messages@.take(i as int) =~= messages@);
    s.append("assistant:");
    s
}

/// The prompt of a longer chat begins with the lines of the chat so far.
pub proof fn law_prompt_grows(messages: Seq<ChatMessage>, next: ChatMessage)
    ensures
        chat_lines(messages.push(next)) == chat_lines(messages) + next.role@ + ": "@
            + next.content@ + "\n"@,
{
    assert(messages.push(next).drop_last() =~= messages);
}

/// How many tokens a request asks for that does not say.
pub fn default_max_tokens() -> (r: usize)
    ensures
        r == 128,
{
    128
}

/// Among how many tokens a request lets choose that does not say.
pub fn default_top_k() -> (r: usize)
    ensures
        r == 40,
{
    40
}

/// The temperature of a request that does not say: the pattern of 0.8.
pub fn default_temperature() -> (r: u32)
    ensures
        r == 0x3F4C_CCCD,
{
    0x3F4C_CCCD
}

/// The share of a request that does not say: the pattern of 0.9.
pub fn default_top_p() -> (r: u32)
    ensures
        r == 0x3F66_6666,
{
    0x3F66_6666
}

/// The model that an answer names: the one that was asked for, or else the one that is loaded.
pub fn answering_model(requested: &str, loaded: &str) -> (r: String)
    ensures
        r@ == if requested@.len() == 0 {
            loaded@
        } else {
            requested@
        },
{
    if requested.unicode_len() == 0 {
        loaded.to_owned()
    } else {
        requested.to_owned()
    }
}

/// The name of a completion that is made at a time, in nanoseconds.
pub fn make_completion_id(nanos: u64) -> (r: String)
    ensures
        r@ == "chatcmpl-"@ + digits(nanos as nat, 16),
{
    let mut s: String = "chatcmpl-".to_owned();
    s.append(hexadecimal(nanos).as_str());
    s
}

/// The seed of a request, or else the time in nanoseconds.
pub fn resolve_seed(seed: Option<u64>, nanos: u64) -> (r: u64)
    ensures
        r == match seed {
            Some(s) => s,
            None => nanos,
        },
{
    match seed {
        Some(s) => s,
        None => nanos,
    }
}

/// The tokens that a completion took.
#[derive(Debug, Clone, Copy)]
pub struct Usage {
    pub prompt_tokens: usize,
    pub completion_tokens: usize,
    pub total_tokens: usize,
}

/// The tokens that a completion took.
pub fn usage(prompt_tokens: usize, completion_tokens: usize) -> (r: Usage)
    requires
        prompt_tokens + completion_tokens <= usize::MAX,
    ensures
        r.prompt_tokens == prompt_tokens,
        r.completion_tokens == completion_tokens,
        r.total_tokens == prompt_tokens + completion_tokens,
{
    Usage {
        prompt_tokens,
        completion_tokens,
        total_tokens: prompt_tokens + completion_tokens,
    }
}

/// A part of a streamed answer.
#[derive(Debug, Clone)]
pub enum StreamChunk {
    /// The role that answers.
    Role,
    /// A piece of text.
    Content(String),
    /// Why the answer ended.
    Finish(String),
    /// The end of the stream.
    End,
}

/// What a part of a streamed answer adds.
#[derive(Debug, Clone)]
pub struct Delta {
    pub role: Option<String>,
    pub content: Option<String>,
    pub finish_reason: Option<String>,
}

/// The contents of a text, if there is one.
pub open spec fn maybe_text(s: Option<String>) -> Option<Seq<char>> {
    match s {
        Some(t) => Some(t@),
        None => None,
    }
}

/// What a part of a streamed answer adds; `None` for the end of the stream.
pub fn delta_of(chunk: &StreamChunk) -> (r: Option<Delta>)
    ensures
        r is None <==> chunk is End,
        r matches Some(d) ==> {
            &&& maybe_text(d.role) == if chunk is Role {
                Some("assistant"@)
            } else {
                None
            }
            &&& maybe_text(d.content) == match *chunk {
                StreamChunk::Content(s) => Some(s@),
                _ => None,
            }
            &&& maybe_text(d.finish_reason) == match *chunk {
                StreamChunk::Finish(s) => Some(s@),
                _ => None,
            }
        },
{
    match chunk {
        StreamChunk::Role => Some(
            Delta { role: Some("assistant".to_owned()), content: None, finish_reason: None },
        ),
        StreamChunk::Content(s) => Some(
            Delta { role: None, content: Some(s.as_str().to_owned()), finish_reason: None },
        ),
        StreamChunk::Finish(s) => Some(
            Delta { role: None, content: None, finish_reason: Some(s.as_str().to_owned()) },
        ),
        StreamChunk::End => None,
    }
}

/// What stands before the extension of a file's name, if that is "hypno". A name that starts with its
/// only dot has no extension.
pub open spec fn hypno_stem(name: Seq<char>) -> Option<Seq<char>> {
    if has_suffix(name, ".hypno"@) && name.len() > ".hypno"@.len() {
        Some(name.subrange(0, name.len() - ".hypno"@.len()))
    } else {
        None
    }
}

/// The names of all models among files, in the order of the files.
pub open spec fn stems(names: Seq<Seq<char>>) -> Seq<Seq<char>>
    decreases names.len(),
{
    if names.len() == 0 {
        Seq::empty()
    } else {
        match hypno_stem(names.last()) {
            Some(stem) => stems(names.drop_last()).push(stem),
            None => stems(names.drop_last()),
        }
    }
}

/// The names of the models among files: what stands before the extension "hypno" of those that have
/// it.
pub fn hypno_stems(names: &[String]) -> (r: Vec<String>)
    ensures
        texts(r@) == stems(texts(names@)),
{
    let ghost all = texts(names@);
    let mut r: Vec<String> = Vec::new();
    let mut i: usize = 0;
    assert(all.take(0) =~= Seq::<Seq<char>>::empty());
    assert(texts(r@) =~= Seq::<Seq<char>>::empty());
    while i < names.len()
        invariant
            all == texts(names@),
            i <= names@.len() == all.len(),
            texts(r@) == stems(all.take(i as int)),
        decreases names@.len() - i,
    {
        let ghost before = texts(r@);
        proof {
            assert(all.take(i + 1).drop_last() =~= all.take(i as int));
            assert(all.take(i + 1).last() == names@[i as int]@);
        }
        let name = names[i].as_str();
        match strip_suffix(name, ".hypno") {
            Some(stem) => {
                if stem.as_str().unicode_len() > 0 {
                    r.push(stem);
                    assert(texts(r@) =~= before.push(stem@));
                }
            },
            None => {},
        }
        i = i + 1;
    }
    assert(all.take(i as int) =~= all);
    r
}

/// The names of the models that can be asked for: those that were found and the loaded one, in
/// order, none twice.
pub fn model_ids(found: &[String], loaded: &str) -> (r: Vec<String>)
    ensures
        forall|i: int, j: int|
            0 <= i < j < r@.len() ==> text_less((#[trigger] r@[i])@, (#[trigger] r@[j])@),
        forall|name: Seq<char>|
            #![trigger texts(r@).contains(name)]
            texts(r@).contains(name) <==> name == loaded@ || texts(found@).contains(name),
{
    let mut names: TextMap<bool> = TextMap::new();
    names.insert(loaded.to_owned(), true);
    let mut i: usize = 0;
    assert forall|name: Seq<char>| names@.contains_key(name) implies name == loaded@ by {
    }
    while i < found.len()
        invariant
            i <= found@.len(),
            names.wf(),
            forall|name: Seq<char>| #[trigger]
                names@.contains_key(name) <==> name == loaded@ || texts(found@).take(
                    i as int,
                ).contains(name),
        decreases found@.len() - i,
    {
        let ghost before = names@;
        names.insert(found[i].as_str().to_owned(), true);
        proof {
            let some = texts(found@).take(i as int);
            let more = texts(found@).take(i + 1);
            let last = found@[i as int]@;
            assert(more =~= some.push(last));
            assert forall|name: Seq<char>| #[trigger]
                names@.contains_key(name) <==> name == loaded@ || more.contains(name) by {
                if some.contains(name) {
                    let k = some.index_of(name);
                    assert(more[k] == name);
                }
                if name == last {
                    assert(more[i as int] == name);
                }
                if more.contains(name) {
                    let k = more.index_of(name);
                    assert(more[k] == name);
                    if k < i {
                        assert(some[k] == name);
                    }
                }
            }
        }
        i = i + 1;
    }
    assert(texts(found@).take(i as int) =~= texts(found@));
    let mut r: Vec<String> = Vec::new();
    let mut k: usize = 0;
    while k < names.entries.len()
        invariant
            k <= names.entries@.len(),
            r@.len() == k,
            forall|j: int| 0 <= j < k ==> (#[trigger] r@[j])@ == names.entries@[j].0@,
        decreases names.entries@.len() - k,
    {
        r.push(names.entries[k].0.as_str().to_owned());
        k = k + 1;
    }
    proof {
        let e = names.entries@;
        assert forall|i: int, j: int| 0 <= i < j < r@.len() implies text_less(
            (#[trigger] r@[i])@,
            (#[trigger] r@[j])@,
        ) by {
            assert(text_less(e[i].0@, e[j].0@));
        }
        assert forall|name: Seq<char>|
            #![trigger texts(r@).contains(name)]
            texts(r@).contains(name) <==> name == loaded@ || texts(found@).contains(name) by {
            lemma_lookup(e, name);
            if texts(r@).contains(name) {
                let j = texts(r@).index_of(name);
                assert(texts(r@)[j] == name);
                lemma_lookup_at(e, j);
                assert(names@.contains_key(name));
            }
            if names@.contains_key(name) {
                let j = choose|j: int| 0 <= j < e.len() && #[trigger] e[j].0@ == name;
                assert(texts(r@)[j] == name);
            }
        }
    }
    r
}

} // verus!
