//! The chat handler's pure logic: the reply text unwrapped from a
//! markdown code fence, the prompt assembled for the upstream model,
//! and the response envelope built byte by byte.  The network call
//! and the JSON field extraction live with the caller.
use vstd::prelude::*;
use crate::blog::spec_json_escape;
use crate::blog::json_escape;
use crate::text::{
    find_byte, find_first, is_prefix, last_match_upto, lemma_find_first, spec_trim, starts_with,
    str_bytes, trim,
};
use vstd::slice::{slice_subrange, slice_to_vec};
use vstd::string::StringSliceAdditionalSpecFns;

verus! {

pub const TPL_PROMPT_0: &'static str = r#"You are a helpful assistant for a portfolio website. Respond to the following message: "#;

pub const TPL_PROMPT_1: &'static str = r#"
        
Refer to the following pages and sections summary as your reference: "#;

pub const TPL_PROMPT_2: &'static str = r#"

IMPORTANT NAVIGATION INSTRUCTIONS:
- Available pages: "index" (home page at /), "blogs" (blogs page at /blogs)
- The index page has the following sections with IDs: home, about, experience, competencies, soft-skills, education, organizations, certificates, awards, contact
- The blogs page has a listing section and individual blog posts
- Individual blog posts are accessible at /blogs/:slug (e.g., /blogs/welcome-to-my-blog, /blogs/getting-started-with-rust)
- If the user's question requires viewing a specific page, section, or blog post, you MUST include a navigation instruction in your response
- Format your response as JSON with two fields:
  1. "response": Your text response to the user
  2. "navigation": An object with "page" (the page to navigate to: "index", "blogs", or a blog post URL like "/blogs/welcome-to-my-blog"), "sectionId" (the section ID to navigate to, if applicable), and "needed" (true/false)
  
Example response formats:
{
  "response": "I can help you with that. Let me navigate to the experience section.",
  "navigation": {
    "needed": true,
    "page": "index",
    "sectionId": "experience"
  }
}

{
  "response": "Let me show you the blogs page.",
  "navigation": {
    "needed": true,
    "page": "blogs",
    "sectionId": null
  }
}

{
  "response": "I'll navigate to the contact section for you.",
  "navigation": {
    "needed": true,
    "page": "/",
    "sectionId": "contact"
  }
}

{
  "response": "Let me show you the blog post about getting started with Rust.",
  "navigation": {
    "needed": true,
    "page": "/blogs/getting-started-with-rust",
    "sectionId": null
  }
}

If navigation is NOT needed, set "needed" to false and both "page" and "sectionId" to null:
{
  "response": "Here's the information you requested...",
  "navigation": {
    "needed": false,
    "page": null,
    "sectionId": null
  }
}

ALWAYS respond in valid JSON format with both "response" and "navigation" fields."#;

/// The reply text with a surrounding markdown code fence removed:
/// when the trimmed text opens with three backticks, the content
/// between the first line break and the last three backticks,
/// trimmed; otherwise the trimmed text itself.
pub open spec fn spec_extract_json_from_markdown(text: Seq<u8>) -> Seq<u8> {
    let t = spec_trim(text);
    if is_prefix("```".spec_bytes(), t) {
        match find_first(t, 10) {
            Some(i) => {
                let after = t.skip(i + 1);
                match last_match_upto(after, "```".spec_bytes(), after.len() as int) {
                    Some(j) => spec_trim(after.take(j)),
                    None => t,
                }
            },
            None => t,
        }
    } else {
        t
    }
}

/// Unwrap a markdown code fence around the reply, if present.
pub fn extract_json_from_markdown(text: &[u8]) -> (r: Vec<u8>)
    ensures
        r@ == spec_extract_json_from_markdown(text@),
{
    let t = trim(text);
    let fence = str_bytes("```");
    if starts_with(t, fence.as_slice()) {
        proof {
            lemma_find_first(t@, 10);
        }
        let tn = t.len();
        match find_byte(t, 10) {
            Some(i) => {
                let after = slice_subrange(t, i + 1, tn);
                proof {
                    assert(after@ =~= t@.skip(i + 1));
                    crate::text::lemma_last_match_upto(after@, fence@, after@.len() as int);
                }
                match crate::text::rfind_sub(after, fence.as_slice()) {
                    Some(j) => {
                        let inner = slice_subrange(after, 0, j);
                        proof {
                            assert(inner@ =~= after@.take(j as int));
                        }
                        slice_to_vec(trim(inner))
                    },
                    None => slice_to_vec(t),
                }
            },
            None => slice_to_vec(t),
        }
    } else {
        slice_to_vec(t)
    }
}

/// The prompt sent upstream: the fixed instructions with the user's
/// message and the page summaries embedded.
pub open spec fn spec_generate_prompt(message: Seq<u8>, pages_json: Seq<u8>) -> Seq<u8> {
    TPL_PROMPT_0.spec_bytes() + message + TPL_PROMPT_1.spec_bytes() + pages_json
        + TPL_PROMPT_2.spec_bytes()
}

pub fn generate_prompt(message: &[u8], pages_json: &[u8]) -> (r: Vec<u8>)
    ensures
        r@ == spec_generate_prompt(message@, pages_json@),
{
    let mut r = str_bytes(TPL_PROMPT_0);
    r.extend_from_slice(message);
    r.extend_from_slice(str_bytes(TPL_PROMPT_1).as_slice());
    r.extend_from_slice(pages_json);
    r.extend_from_slice(str_bytes(TPL_PROMPT_2).as_slice());
    proof {
        assert(r@ =~= spec_generate_prompt(message@, pages_json@));
    }
    r
}

/// A JSON string or `null` for an optional field value.
pub open spec fn spec_json_opt_string(v: Option<Seq<u8>>) -> Seq<u8> {
    match v {
        Some(s) => "\"".spec_bytes() + spec_json_escape(s) + "\"".spec_bytes(),
        None => "null".spec_bytes(),
    }
}

/// The chat response envelope: the reply text and the navigation
/// instruction, in the exact field order the clients read.
pub open spec fn spec_chat_response_json(
    response: Seq<u8>,
    needed: bool,
    page: Option<Seq<u8>>,
    section_id: Option<Seq<u8>>,
) -> Seq<u8> {
    "{\"response\":\"".spec_bytes() + spec_json_escape(response)
        + "\",\"navigation\":{\"needed\":".spec_bytes() + (if needed {
        "true".spec_bytes()
    } else {
        "false".spec_bytes()
    }) + ",\"page\":".spec_bytes() + spec_json_opt_string(page)
        + ",\"sectionId\":".spec_bytes() + spec_json_opt_string(section_id) + "}}".spec_bytes()
}

fn push_json_opt_string(out: &mut Vec<u8>, v: &Option<Vec<u8>>)
    ensures
        final(out)@ == old(out)@ + spec_json_opt_string(
            match v {
                Some(s) => Some(s@),
                None => None,
            },
        ),
{
    match v {
        Some(s) => {
            out.push(34);
            let e = json_escape(s.as_slice());
            out.extend_from_slice(e.as_slice());
            out.push(34);
            proof {
                assert(final(out)@ =~= old(out)@ + ("\"".spec_bytes() + spec_json_escape(s@)
                    + "\"".spec_bytes())) by {
                    reveal_strlit("\"");
                    crate::text::lemma_ascii_str_bytes("\"");
                }
            }
        },
        None => {
            out.extend_from_slice(str_bytes("null").as_slice());
        },
    }
}

/// Build the chat response envelope.
pub fn chat_response_json(
    response: &[u8],
    needed: bool,
    page: &Option<Vec<u8>>,
    section_id: &Option<Vec<u8>>,
) -> (r: Vec<u8>)
    ensures
        r@ == spec_chat_response_json(
            response@,
            needed,
            match page {
                Some(s) => Some(s@),
                None => None,
            },
            match section_id {
                Some(s) => Some(s@),
                None => None,
            },
        ),
{
    let mut r = str_bytes("{\"response\":\"");
    let e = json_escape(response);
    r.extend_from_slice(e.as_slice());
    r.extend_from_slice(str_bytes("\",\"navigation\":{\"needed\":").as_slice());
    if needed {
        r.extend_from_slice(str_bytes("true").as_slice());
    } else {
        r.extend_from_slice(str_bytes("false").as_slice());
    }
    r.extend_from_slice(str_bytes(",\"page\":").as_slice());
    push_json_opt_string(&mut r, page);
    r.extend_from_slice(str_bytes(",\"sectionId\":").as_slice());
    push_json_opt_string(&mut r, section_id);
    r.extend_from_slice(str_bytes("}}").as_slice());
    proof {
        assert(r@ =~= spec_chat_response_json(
            response@,
            needed,
            match page {
                Some(s) => Some(s@),
                None => None,
            },
            match section_id {
                Some(s) => Some(s@),
                None => None,
            },
        ));
    }
    r
}

} // verus!
