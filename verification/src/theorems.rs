//! Theorems about requests and responses, stated over the views and spec
//! functions that the contracts in `http` use.

use crate::http::{
    blank_line, line_feed, reversed_line_ending, space, spec_after_status_line,
    spec_header_block, spec_header_line, spec_new_request, spec_normalize,
    spec_parse_normalized, spec_parse_response, spec_render, spec_request_line, HeaderView,
    Method, ParseError, RequestView, ResponseView,
};
use crate::text::{
    all_digits, lemma_find, lemma_replace_concat, lemma_replace_nothing, lemma_split_join,
    lemma_split_once, lemma_split_once_assembled, occurs_at, spec_find, spec_join,
    spec_parse_u8, spec_replace, spec_split, spec_split_once, without_sign,
};
use vstd::prelude::*;

verus! {

/// The header block of two runs of header fields is the block of the first
/// run followed by the block of the second.
pub proof fn lemma_header_block_concat(first: Seq<HeaderView>, second: Seq<HeaderView>)
    ensures
        spec_header_block(first + second) == spec_header_block(first) + spec_header_block(second),
    decreases second.len(),
{
    if second.len() == 0 {
        assert(first + second =~= first);
    } else {
        assert((first + second).drop_last() =~= first + second.drop_last());
        lemma_header_block_concat(first, second.drop_last());
    }
}

/// A freshly built request is well formed.
pub proof fn lemma_new_request_wf(method: Method, host: Seq<char>, path: Seq<char>)
    ensures
        spec_new_request(method, host, path).wf(),
{
}

/// Adding a header field to a well-formed request leaves it well formed:
/// the `Host` header stays first.
pub proof fn lemma_with_header_wf(r: RequestView, key: Seq<char>, value: Seq<char>)
    requires
        r.wf(),
    ensures
        r.with_header(key, value).wf(),
        r.with_header(key, value).headers[0] == r.headers[0],
{
}

/// The text of a freshly built request begins with the request line
/// `<METHOD> <path> HTTP/1.1`, goes on with the line `Host: <host>`, and
/// ends with the empty line and the placeholder body.
pub proof fn lemma_new_request_render(method: Method, host: Seq<char>, path: Seq<char>)
    ensures
        ({
            let text = spec_render(spec_new_request(method, host, path));
            let request_line = method.spec_name() + " "@ + path + " HTTP/1.1\n"@;
            let host_line = "Host: "@ + host + "\n"@;
            &&& request_line.is_prefix_of(text)
            &&& (request_line + host_line).is_prefix_of(text)
            &&& text == request_line + host_line + "\n"@ + "sending a request"@
        }),
{
    reveal_strlit(" ");
    reveal_strlit("\n");
    reveal_strlit("HTTP/1.1");
    reveal_strlit(" HTTP/1.1\n");
    reveal_strlit("Host");
    reveal_strlit(": ");
    reveal_strlit("Host: ");
    let r = spec_new_request(method, host, path);
    let text = spec_render(r);
    let request_line = method.spec_name() + " "@ + path + " HTTP/1.1\n"@;
    let host_line = "Host: "@ + host + "\n"@;
    assert(spec_request_line(r) =~= request_line);
    assert(r.headers.drop_last() =~= Seq::<HeaderView>::empty());
    assert(spec_header_block(r.headers.drop_last()) =~= Seq::<char>::empty());
    assert(spec_header_line(r.headers.last()) =~= host_line);
    assert(spec_header_block(r.headers) =~= host_line);
    assert(text =~= request_line + host_line + "\n"@ + "sending a request"@);
}

/// The text of a well-formed request begins with its request line and the
/// `Host` line; the lines of the header fields added since follow in the
/// order in which they were added, then the empty line and the body.
pub proof fn lemma_render_host_first(r: RequestView)
    requires
        r.wf(),
    ensures
        ({
            let request_line = r.method.spec_name() + " "@ + r.path + " HTTP/1.1\n"@;
            let host_line = "Host: "@ + r.headers[0].value + "\n"@;
            &&& (request_line + host_line).is_prefix_of(spec_render(r))
            &&& spec_render(r) == request_line + host_line + spec_header_block(r.headers.skip(1))
                + "\n"@ + r.body
        }),
{
    reveal_strlit(" ");
    reveal_strlit("\n");
    reveal_strlit("HTTP/1.1");
    reveal_strlit(" HTTP/1.1\n");
    reveal_strlit("Host");
    reveal_strlit(": ");
    reveal_strlit("Host: ");
    let request_line = r.method.spec_name() + " "@ + r.path + " HTTP/1.1\n"@;
    let host_line = "Host: "@ + r.headers[0].value + "\n"@;
    let first = seq![r.headers[0]];
    assert(spec_request_line(r) =~= request_line);
    assert(first.drop_last() =~= Seq::<HeaderView>::empty());
    assert(spec_header_block(first.drop_last()) =~= Seq::<char>::empty());
    assert(spec_header_line(first.last()) =~= host_line);
    assert(spec_header_block(first) =~= host_line);
    assert(r.headers =~= first + r.headers.skip(1));
    lemma_header_block_concat(first, r.headers.skip(1));
    assert(spec_render(r) =~= request_line + host_line + spec_header_block(r.headers.skip(1))
        + "\n"@ + r.body);
}

/// Adding a header field keeps every line that was there, in its place,
/// and puts the line of the new field after them, directly before the
/// empty line.
pub proof fn lemma_add_header_appends_line(r: RequestView, key: Seq<char>, value: Seq<char>)
    ensures
        ({
            let added = HeaderView { key, value };
            &&& spec_header_block(r.with_header(key, value).headers) == spec_header_block(
                r.headers,
            ) + spec_header_line(added)
            &&& spec_render(r.with_header(key, value)) == spec_request_line(r) + spec_header_block(
                r.headers,
            ) + spec_header_line(added) + seq!['\n'] + r.body
        }),
{
    let added = HeaderView { key, value };
    assert(r.headers.push(added).drop_last() =~= r.headers);
}

/// Each reversed line ending is collapsed into one line feed, whatever
/// stands before and after it, and the texts before and after it are
/// normalized by themselves.
pub proof fn lemma_normalize_collapses(before: Seq<char>, after: Seq<char>)
    ensures
        spec_normalize(before + reversed_line_ending() + after) == spec_normalize(before)
            + line_feed() + spec_normalize(after),
{
    let from = reversed_line_ending();
    let to = line_feed();
    let tail = from + after;
    assert(before + from + after =~= before + tail);
    assert forall|i: int| before.len() - from.len() < i < before.len() implies !occurs_at(
        before + tail,
        from,
        i,
    ) by {
        if occurs_at(before + tail, from, i) {
            assert((before + tail).subrange(i, i + 2)[1] == '\r');
            assert((before + tail)[i + 1] == '\n');
        }
    }
    lemma_replace_concat(before, tail, from, to);
    assert(tail.subrange(0, 2) =~= from);
    assert(tail.skip(2) =~= after);
    assert(spec_replace(tail, from, to) == to + spec_replace(after, from, to));
}

/// A text without a reversed line ending is parsed as it stands.
pub proof fn lemma_normalize_nothing(raw: Seq<char>)
    requires
        forall|i: int| !occurs_at(raw, reversed_line_ending(), i),
    ensures
        spec_normalize(raw) == raw,
        spec_parse_response(raw) == spec_parse_normalized(raw),
{
    lemma_replace_nothing(raw, reversed_line_ending(), line_feed());
}

/// Normalizing neither brings a line feed into a text nor takes the last
/// one out of it.
pub proof fn lemma_normalize_keeps_line_feeds(raw: Seq<char>)
    ensures
        spec_normalize(raw).contains('\n') == raw.contains('\n'),
    decreases raw.len(),
{
    let from = reversed_line_ending();
    let out = spec_normalize(raw);
    if raw.len() == 0 {
    } else if occurs_at(raw, from, 0) {
        assert(raw.subrange(0, 2)[0] == '\n');
        assert(raw[0] == '\n');
        assert(out[0] == '\n');
    } else {
        let rest = raw.skip(1);
        let tail = spec_normalize(rest);
        lemma_normalize_keeps_line_feeds(rest);
        assert(out =~= seq![raw[0]] + tail);
        if raw.contains('\n') {
            let i = choose|i: int| 0 <= i < raw.len() && raw[i] == '\n';
            if i == 0 {
                assert(out[0] == '\n');
            } else {
                assert(rest[i - 1] == '\n');
                let j = choose|j: int| 0 <= j < tail.len() && tail[j] == '\n';
                assert(out[j + 1] == '\n');
            }
        }
        if out.contains('\n') {
            let j = choose|j: int| 0 <= j < out.len() && out[j] == '\n';
            if j == 0 {
                assert(raw[0] == '\n');
            } else {
                assert(tail[j - 1] == '\n');
                let i = choose|i: int| 0 <= i < rest.len() && rest[i] == '\n';
                assert(raw[i + 1] == '\n');
            }
        }
    }
}

/// A response text is malformed as a whole exactly when there is no line
/// feed in it; with a line feed in it, it is parsed or its status line is
/// malformed.
pub proof fn lemma_malformed_response(raw: Seq<char>)
    ensures
        spec_parse_response(raw) == Err::<ResponseView, ParseError>(
            ParseError::MalformedResponse,
        ) <==> !raw.contains('\n'),
{
    let text = spec_normalize(raw);
    lemma_normalize_keeps_line_feeds(raw);
    lemma_find(text, line_feed());
    if text.contains('\n') {
        let i = choose|i: int| 0 <= i < text.len() && text[i] == '\n';
        assert(text.subrange(i, i + 1) =~= line_feed());
        assert(occurs_at(text, line_feed(), i));
    }
    if let Some(i) = spec_find(text, line_feed()) {
        assert(text.subrange(i, i + 1)[0] == '\n');
        assert(text[i] == '\n');
    }
}

/// Where no blank line follows the status line, the header block is empty
/// and all that follows the status line is the body.
pub proof fn lemma_no_blank_line(text: Seq<char>)
    requires
        spec_parse_normalized(text) is Ok,
        forall|i: int| !occurs_at(spec_after_status_line(text), blank_line(), i),
    ensures
        spec_parse_normalized(text)->Ok_0.headers == Seq::<char>::empty(),
        spec_parse_normalized(text)->Ok_0.body == spec_after_status_line(text),
{
    lemma_find(spec_after_status_line(text), blank_line());
}

/// A response text that holds no blank line and nothing after its status
/// line has an empty body, and its header block is all that follows the
/// status line. (Where something does follow the status line, all of it is
/// body: see `lemma_no_blank_line`.)
pub proof fn lemma_nothing_after_status_line(raw: Seq<char>)
    requires
        spec_parse_response(raw) is Ok,
        forall|i: int| !occurs_at(raw, blank_line(), i),
        spec_after_status_line(spec_normalize(raw)).len() == 0,
    ensures
        spec_parse_response(raw)->Ok_0.body == Seq::<char>::empty(),
        spec_parse_response(raw)->Ok_0.headers == spec_after_status_line(spec_normalize(raw)),
{
    let remaining = spec_after_status_line(spec_normalize(raw));
    lemma_find(remaining, blank_line());
    assert(remaining =~= Seq::<char>::empty());
}

/// A parsed response accounts for all of the text. The text is the status
/// line, a line feed and the rest; the status line holds no line feed and
/// is its tokens with single spaces between them; version, status code and
/// reason phrase are the first three tokens, none of which holds a space;
/// and the rest is the header block, a blank line and the body, or the
/// body alone where the rest holds no blank line.
pub proof fn lemma_parsed_text(text: Seq<char>)
    requires
        spec_parse_normalized(text) is Ok,
    ensures
        ({
            let response = spec_parse_normalized(text)->Ok_0;
            let (status_line, remaining) = spec_split_once(text, line_feed())->0;
            let tokens = spec_split(status_line, space());
            &&& text == status_line + line_feed() + remaining
            &&& !status_line.contains('\n')
            &&& status_line == spec_join(tokens, space())
            &&& tokens.len() >= 3
            &&& forall|k: int| 0 <= k < tokens.len() ==> !(#[trigger] tokens[k]).contains(' ')
            &&& response.version == tokens[0]
            &&& Some(response.status_code) == spec_parse_u8(tokens[1])
            &&& response.reason == tokens[2]
            &&& if exists|i: int| occurs_at(remaining, blank_line(), i) {
                remaining == response.headers + blank_line() + response.body
            } else {
                response.headers.len() == 0 && response.body == remaining
            }
        }),
{
    let (status_line, remaining) = spec_split_once(text, line_feed())->0;
    let tokens = spec_split(status_line, space());
    lemma_split_once(text, line_feed());
    lemma_split_once(remaining, blank_line());
    lemma_split_join(status_line, space());
    if status_line.contains('\n') {
        let j = choose|j: int| 0 <= j < status_line.len() && status_line[j] == '\n';
        assert(text.subrange(j, j + 1) =~= line_feed());
        assert(occurs_at(text, line_feed(), j));
    }
    assert forall|k: int| 0 <= k < tokens.len() implies !(#[trigger] tokens[k]).contains(' ') by {
        if tokens[k].contains(' ') {
            let i = choose|i: int| 0 <= i < tokens[k].len() && tokens[k][i] == ' ';
            assert(tokens[k].subrange(i, i + 1) =~= space());
            assert(occurs_at(tokens[k], space(), i));
        }
    }
}

/// Whether `s` can stand as one token of a status line: it holds neither a
/// space nor a line feed.
pub open spec fn is_token(s: Seq<char>) -> bool {
    forall|i: int| 0 <= i < s.len() ==> s[i] != ' ' && s[i] != '\n'
}

/// A text put together from a version, a status code, a reason phrase, a
/// header block and a body is parsed into exactly these parts, provided
/// that version and reason are single tokens, that the code is a number up
/// to 255, and that no blank line comes before the one that ends the
/// header block.
pub proof fn lemma_parse_assembled(
    version: Seq<char>,
    code: Seq<char>,
    reason: Seq<char>,
    headers: Seq<char>,
    body: Seq<char>,
)
    requires
        is_token(version),
        is_token(reason),
        spec_parse_u8(code) is Some,
        forall|j: int|
            0 <= j < headers.len() ==> !occurs_at(headers + blank_line(), blank_line(), j),
    ensures
        spec_parse_normalized(
            version + space() + code + space() + reason + line_feed() + headers + blank_line()
                + body,
        ) == Ok::<ResponseView, ParseError>(
            ResponseView { version, status_code: spec_parse_u8(code)->0, reason, headers, body },
        ),
{
    let sp = space();
    let lf = line_feed();
    let after_version = code + sp + reason;
    let status_line = version + sp + after_version;
    let remaining = headers + blank_line() + body;
    let text = version + sp + code + sp + reason + lf + headers + blank_line() + body;
    assert(text =~= status_line + lf + remaining);

    assert(is_token(code)) by {
        let digits = without_sign(code);
        assert(all_digits(digits));
        assert forall|i: int| 0 <= i < code.len() implies code[i] != ' ' && code[i] != '\n' by {
            if code[0] == '+' {
                if i > 0 {
                    assert(code[i] == digits[i - 1]);
                }
            } else {
                assert(code[i] == digits[i]);
            }
        }
    }

    // The status line ends at the first line feed.
    assert forall|j: int| 0 <= j < status_line.len() implies !occurs_at(
        status_line + lf,
        lf,
        j,
    ) by {
        if occurs_at(status_line + lf, lf, j) {
            assert((status_line + lf).subrange(j, j + 1)[0] == '\n');
            assert(status_line[j] == '\n');
        }
    }
    lemma_split_once_assembled(status_line, lf, remaining);
    lemma_split_once_assembled(headers, blank_line(), body);

    // The status line is cut at its two spaces.
    assert forall|j: int| 0 <= j < version.len() implies !occurs_at(version + sp, sp, j) by {
        if occurs_at(version + sp, sp, j) {
            assert((version + sp).subrange(j, j + 1)[0] == ' ');
        }
    }
    lemma_split_once_assembled(version, sp, after_version);
    assert forall|j: int| 0 <= j < code.len() implies !occurs_at(code + sp, sp, j) by {
        if occurs_at(code + sp, sp, j) {
            assert((code + sp).subrange(j, j + 1)[0] == ' ');
        }
    }
    lemma_split_once_assembled(code, sp, reason);
    assert forall|j: int| !occurs_at(reason, sp, j) by {
        if occurs_at(reason, sp, j) {
            assert(reason.subrange(j, j + 1)[0] == ' ');
        }
    }
    assert(spec_find(reason, sp) is None);
    assert(spec_split(reason, sp) =~= seq![reason]);
    assert(spec_split(after_version, sp) =~= seq![code, reason]);
    assert(spec_split(status_line, sp) =~= seq![version, code, reason]);
}

} // verus!
