//! The rules of the commands: names of element types and files, addresses, and what a line of a
//! chat asks for.

use vstd::prelude::*;
use crate::dtype::DType;
use crate::text::{
    chars_of, contains, ends_with, has_infix, has_prefix, has_suffix, same_text, starts_with,
    text_of, texts,
};
use crate::tokenizer::{is_space, whitespace};

verus! {

/// All characters are those of ASCII.
pub open spec fn ascii(s: Seq<char>) -> bool {
    forall|i: int| 0 <= i < s.len() ==> 128 > (#[trigger] s[i]) as u32
}

/// A character of ASCII in upper case.
pub open spec fn upper(c: char) -> char {
    if 'a' <= c <= 'z' {
        (c as u32 - 32) as char
    } else {
        c
    }
}

/// A character of ASCII in lower case.
pub open spec fn lower(c: char) -> char {
    if 'A' <= c <= 'Z' {
        (c as u32 + 32) as char
    } else {
        c
    }
}

/// What `str::to_uppercase` returns.
pub uninterp spec fn uppercase(s: Seq<char>) -> Seq<char>;

/// What `str::to_lowercase` returns.
pub uninterp spec fn lowercase(s: Seq<char>) -> Seq<char>;

/// A text in upper case, by `str::to_uppercase`: a function of the text, which for a text of ASCII
/// changes the letters a to z and nothing else.
#[verifier::external_body]
fn to_upper(s: &str) -> (r: String)
    ensures
        r@ == uppercase(s@),
        ascii(s@) ==> r@ == s@.map_values(|c: char| upper(c)),
{
    s.to_uppercase()
}

/// A text in lower case, by `str::to_lowercase`: a function of the text, which for a text of ASCII
/// changes the letters A to Z and nothing else.
#[verifier::external_body]
fn to_lower(s: &str) -> (r: String)
    ensures
        r@ == lowercase(s@),
        ascii(s@) ==> r@ == s@.map_values(|c: char| lower(c)),
{
    s.to_lowercase()
}

/// The element type with a name in upper case.
pub open spec fn dtype_of_name(s: Seq<char>) -> Option<DType> {
    if s == "FP32"@ {
        Some(DType::FP32)
    } else if s == "FP16"@ {
        Some(DType::FP16)
    } else if s == "Q8_0"@ {
        Some(DType::Q8_0)
    } else if s == "Q4_0"@ {
        Some(DType::Q4_0)
    } else {
        None
    }
}

/// The element type with a name in upper case.
pub fn dtype_named(s: &str) -> (r: Option<DType>)
    ensures
        r == dtype_of_name(s@),
{
    if same_text(s, "FP32") {
        Some(DType::FP32)
    } else if same_text(s, "FP16") {
        Some(DType::FP16)
    } else if same_text(s, "Q8_0") {
        Some(DType::Q8_0)
    } else if same_text(s, "Q4_0") {
        Some(DType::Q4_0)
    } else {
        None
    }
}

/// The element type with a name in whatever case.
pub fn parse_dtype(s: &str) -> (r: Option<DType>)
    ensures
        r == dtype_of_name(uppercase(s@)),
        ascii(s@) ==> r == dtype_of_name(s@.map_values(|c: char| upper(c))),
{
    dtype_named(to_upper(s).as_str())
}

/// Each element type is the one with its name.
pub proof fn law_names_tell_types_apart(d: DType)
    ensures
        dtype_of_name(d.label()) == Some(d),
{
    reveal_strlit("FP32");
    reveal_strlit("FP16");
    reveal_strlit("Q8_0");
    reveal_strlit("Q4_0");
    assert("FP32"@[2] == '3' && "FP16"@[2] == '1');
    assert("FP32"@[0] == 'F' && "Q8_0"@[0] == 'Q');
    assert("FP16"@[0] == 'F' && "Q4_0"@[0] == 'Q');
    assert("Q8_0"@[1] == '8' && "Q4_0"@[1] == '4');
}

/// What stands behind the last `c` of a text, or the whole text where there is none.
pub open spec fn after_last(s: Seq<char>, c: char) -> Seq<char>
    decreases s.len(),
{
    if s.len() == 0 || s.last() == c {
        Seq::empty()
    } else {
        after_last(s.drop_last(), c).push(s.last())
    }
}

/// What stands behind the last `c` holds no `c`, and the text ends with it.
pub proof fn law_after_last(s: Seq<char>, c: char)
    ensures
        !after_last(s, c).contains(c),
        has_suffix(s, after_last(s, c)),
        after_last(s, c).len() < s.len() ==> s[s.len() - after_last(s, c).len() - 1] == c,
    decreases s.len(),
{
    if s.len() > 0 && s.last() != c {
        let front = s.drop_last();
        law_after_last(front, c);
        let rest = after_last(front, c);
        let all = rest.push(s.last());
        assert forall|i: int| 0 <= i < all.len() implies all[i] != c by {
            if i < rest.len() {
                assert(rest.contains(rest[i]));
            }
        }
        assert(s.subrange(s.len() - all.len(), s.len() as int) =~= all) by {
            assert(front.subrange(front.len() - rest.len(), front.len() as int) == rest);
            assert forall|i: int| 0 <= i < all.len() implies s.subrange(
                s.len() - all.len(),
                s.len() as int,
            )[i] == all[i] by {
                if i < rest.len() {
                    assert(rest[i] == front.subrange(
                        front.len() - rest.len(),
                        front.len() as int,
                    )[i]);
                }
            }
        }
    } else {
        assert(s.subrange(s.len() as int, s.len() as int) =~= Seq::<char>::empty());
    }
}

/// A text with dashes in place of spaces and dots.
pub open spec fn dashed(s: Seq<char>) -> Seq<char> {
    s.map_values(
        |c: char|
            if c == ' ' || c == '.' {
                '-'
            } else {
                c
            },
    )
}

/// The last part of a model's name, with dashes in place of spaces and dots.
pub fn name_stem(model_id: &str) -> (r: String)
    ensures
        r@ == dashed(after_last(model_id@, '/')),
{
    let chars = chars_of(model_id);
    let mut start: usize = chars.len();
    let ghost whole = after_last(model_id@, '/');
    assert(chars@.skip(start as int) =~= Seq::<char>::empty());
    assert(chars@.take(start as int) =~= chars@);
    assert(whole =~= after_last(chars@.take(start as int), '/') + chars@.skip(start as int));
    while start > 0 && chars[start - 1] != '/'
        invariant
            start <= chars@.len(),
            whole == after_last(chars@.take(start as int), '/') + chars@.skip(start as int),
        decreases start,
    {
        let ghost front = chars@.take(start as int);
        assert(front.drop_last() =~= chars@.take(start - 1));
        assert(front.last() == chars@[start - 1]);
        assert(chars@.skip(start - 1) =~= seq![chars@[start - 1]] + chars@.skip(start as int));
        assert(after_last(front, '/') + chars@.skip(start as int) =~= after_last(
            front.drop_last(),
            '/',
        ) + chars@.skip(start - 1));
        start = start - 1;
    }
    proof {
        let front = chars@.take(start as int);
        if start > 0 {
            assert(front.last() == chars@[start - 1]);
        }
        assert(after_last(front, '/') == Seq::<char>::empty());
        assert(whole =~= chars@.skip(start as int));
    }
    let mut out: Vec<char> = Vec::new();
    let mut i: usize = start;
    while i < chars.len()
        invariant
            start <= i <= chars@.len(),
            out@.len() == i - start,
            forall|k: int| 0 <= k < out@.len() ==> #[trigger] out@[k] == dashed(whole)[k],
            whole == chars@.skip(start as int),
        decreases chars@.len() - i,
    {
        let c = chars[i];
        assert(whole[i - start] == c);
        if c == ' ' || c == '.' {
            out.push('-');
        } else {
            out.push(c);
        }
        i = i + 1;
    }
    assert(out@ =~= dashed(whole));
    text_of(out.as_slice())
}

/// The name that a model's files get: the last part of its name in lower case, with dashes in place
/// of spaces and dots.
pub fn sanitize_name(model_id: &str) -> (r: String)
    ensures
        r@ == lowercase(dashed(after_last(model_id@, '/'))),
        ascii(dashed(after_last(model_id@, '/'))) ==> r@ == dashed(
            after_last(model_id@, '/'),
        ).map_values(|c: char| lower(c)),
{
    to_lower(name_stem(model_id).as_str())
}

/// Where a file of a model is found on the hub.
pub fn hf_download_url(model_id: &str, revision: &str, filename: &str) -> (r: String)
    ensures
        r@ == "https://huggingface.co/"@ + model_id@ + "/resolve/"@ + revision@ + "/"@ + filename@,
{
    let mut s: String = "https://huggingface.co/".to_owned();
    s.append(model_id);
    s.append("/resolve/");
    s.append(revision);
    s.append("/");
    s.append(filename);
    s
}

/// Where the list of a model's files is found on the hub.
pub fn hf_list_url(model_id: &str, revision: &str) -> (r: String)
    ensures
        r@ == "https://huggingface.co/api/models/"@ + model_id@ + "/tree/"@ + revision@,
{
    let mut s: String = "https://huggingface.co/api/models/".to_owned();
    s.append(model_id);
    s.append("/tree/");
    s.append(revision);
    s
}

/// Whether a file of a model is downloaded: its configurations, its weights and its tokenizer, but
/// no adapters.
pub open spec fn downloaded(path: Seq<char>) -> bool {
    ||| path == "config.json"@
    ||| path == "tokenizer.json"@
    ||| path == "tokenizer_config.json"@
    ||| path == "special_tokens_map.json"@
    ||| path == "generation_config.json"@
    ||| has_suffix(path, ".safetensors"@) && !has_infix(path, "adapter"@)
    ||| has_suffix(path, ".model"@)
}

/// Whether a file of a model is downloaded.
pub fn is_downloaded(path: &str) -> (r: bool)
    ensures
        r == downloaded(path@),
{
    same_text(path, "config.json") || same_text(path, "tokenizer.json") || same_text(
        path,
        "tokenizer_config.json",
    ) || same_text(path, "special_tokens_map.json") || same_text(path, "generation_config.json")
        || (ends_with(path, ".safetensors") && !contains(path, "adapter")) || ends_with(
        path,
        ".model",
    )
}

/// The files of a model that are downloaded, in their order.
pub fn files_to_download(paths: &[String]) -> (r: Vec<String>)
    ensures
        texts(r@) == texts(paths@).filter(|p: Seq<char>| downloaded(p)),
{
    let mut r: Vec<String> = Vec::new();
    let ghost all = texts(paths@);
    let mut i: usize = 0;
    assert(all.take(0) =~= Seq::<Seq<char>>::empty());
    proof {
        reveal(Seq::filter);
    }
    assert(texts(r@) =~= all.take(0).filter(|p: Seq<char>| downloaded(p)));
    while i < paths.len()
        invariant
            i <= paths@.len(),
            all == texts(paths@),
            texts(r@) == all.take(i as int).filter(|p: Seq<char>| downloaded(p)),
        decreases paths@.len() - i,
    {
        let ghost before = r@;
        let ghost next = all.take(i + 1);
        assert(next.drop_last() =~= all.take(i as int));
        assert(next.last() == paths@[i as int]@);
        proof {
            reveal(Seq::filter);
        }
        if is_downloaded(paths[i].as_str()) {
            r.push(paths[i].as_str().to_owned());
            assert(texts(r@) =~= texts(before).push(paths@[i as int]@));
        }
        i = i + 1;
    }
    assert(all.take(i as int) =~= all);
    r
}

/// Whether a file belongs to a model: its archives, its configuration and its tokenizer.
pub open spec fn of_model(name: Seq<char>) -> bool {
    ||| has_suffix(name, ".safetensors"@)
    ||| name == "config.json"@
    ||| has_prefix(name, "tokenizer"@)
    ||| name == "special_tokens_map.json"@
}

/// Whether a file belongs to a model.
pub fn is_of_model(name: &str) -> (r: bool)
    ensures
        r == of_model(name@),
{
    ends_with(name, ".safetensors") || same_text(name, "config.json") || starts_with(
        name,
        "tokenizer",
    ) || same_text(name, "special_tokens_map.json")
}

/// What a conversion converts.
#[derive(Debug, Clone, Copy, PartialEq, Eq, Structural)]
pub enum ConvertMode {
    /// An adapter by itself.
    AdapterOnly,
    /// A model with an adapter merged into it.
    Merged,
    /// A GGUF file.
    Gguf,
    /// A model.
    Model,
}

/// What a conversion converts. What is asked for by name goes before what is given.
pub fn convert_mode(lora_only: bool, has_adapter: bool, gguf: bool) -> (r: ConvertMode)
    ensures
        r == if lora_only {
            ConvertMode::AdapterOnly
        } else if has_adapter {
            ConvertMode::Merged
        } else if gguf {
            ConvertMode::Gguf
        } else {
            ConvertMode::Model
        },
{
    if lora_only {
        ConvertMode::AdapterOnly
    } else if has_adapter {
        ConvertMode::Merged
    } else if gguf {
        ConvertMode::Gguf
    } else {
        ConvertMode::Model
    }
}

/// A text without the white space it begins with.
pub open spec fn trimmed_start(s: Seq<char>) -> Seq<char>
    decreases s.len(),
{
    if s.len() > 0 && is_space(s[0]) {
        trimmed_start(s.drop_first())
    } else {
        s
    }
}

/// A text without the white space it ends with.
pub open spec fn trimmed_end(s: Seq<char>) -> Seq<char>
    decreases s.len(),
{
    if s.len() > 0 && is_space(s.last()) {
        trimmed_end(s.drop_last())
    } else {
        s
    }
}

/// A text without the white space around it.
pub fn trim(s: &str) -> (r: String)
    ensures
        r@ == trimmed_end(trimmed_start(s@)),
{
    let chars = chars_of(s);
    let n: usize = chars.len();
    let mut start: usize = 0;
    assert(chars@.skip(0) =~= chars@);
    while start < n && whitespace(chars[start])
        invariant
            start <= n == chars@.len(),
            trimmed_start(chars@) == trimmed_start(chars@.skip(start as int)),
        decreases n - start,
    {
        assert(chars@.skip(start as int).drop_first() =~= chars@.skip(start + 1));
        start = start + 1;
    }
    let mut end: usize = n;
    assert(chars@.subrange(start as int, n as int) =~= chars@.skip(start as int));
    while end > start && whitespace(chars[end - 1])
        invariant
            start <= end <= n == chars@.len(),
            trimmed_end(chars@.skip(start as int)) == trimmed_end(
                chars@.subrange(start as int, end as int),
            ),
        decreases end - start,
    {
        assert(chars@.subrange(start as int, end as int).drop_last() =~= chars@.subrange(
            start as int,
            end - 1,
        ));
        end = end - 1;
    }
    text_of(vstd::slice::slice_subrange(chars.as_slice(), start, end))
}

/// What a line of a chat asks for.
#[derive(Debug, Clone)]
pub enum ChatLine {
    /// To end the chat.
    Quit,
    /// To forget what was said.
    Clear,
    /// Nothing.
    Nothing,
    /// An answer to this text.
    Prompt(String),
}

/// What a line of a chat asks for, without the white space around it.
pub fn read_line(line: &str) -> (r: ChatLine)
    ensures
        ({
            let t = trimmed_end(trimmed_start(line@));
            match r {
                ChatLine::Quit => t == "exit"@ || t == "quit"@,
                ChatLine::Clear => t == "clear"@ && t != "exit"@ && t != "quit"@,
                ChatLine::Nothing => t.len() == 0 && t != "exit"@ && t != "quit"@ && t
                    != "clear"@,
                ChatLine::Prompt(p) => p@ == t && t.len() > 0 && t != "exit"@ && t != "quit"@ && t
                    != "clear"@,
            }
        }),
{
    let t = trim(line);
    if same_text(t.as_str(), "exit") || same_text(t.as_str(), "quit") {
        ChatLine::Quit
    } else if same_text(t.as_str(), "clear") {
        ChatLine::Clear
    } else if t.as_str().unicode_len() == 0 {
        ChatLine::Nothing
    } else {
        ChatLine::Prompt(t)
    }
}

} // verus!
