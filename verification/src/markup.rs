//! The inline-markup tokenizer: from the runs of one line of narration to one
//! flat annotated string.
//!
//! A line is an array of runs. A string run is text. A record (an array that
//! starts with its tag) is markup: a line break, a ruby annotation, a font
//! override. An attribute among the runs carries no text and is passed over.
//! Anything else is an error.

use vstd::prelude::*;
use vstd::string::*;
use crate::error::result_view;
use crate::text::{decimal, push_decimal, str_eq};
use crate::types::{lemma_trees, trees, Tree, Value};

verus! {

/// What the tokenizer carries from run to run.
pub struct MarkupState {
    /// The text written so far.
    pub out: Seq<char>,
    /// The reading of the ruby annotation that is open, if one is.
    pub ruby: Option<Seq<char>>,
    /// Whether a font override is open.
    pub in_exfont: bool,
}

/// What closes a ruby annotation with the reading `rt`.
pub open spec fn ruby_close(rt: Seq<char>) -> Seq<char> {
    "<rt>"@ + rt + "</rt></ruby>"@
}

/// How the value of a font attribute is written: a string as it is, a number
/// in decimal, anything else as nothing.
pub open spec fn attr_text(v: Tree) -> Seq<char> {
    match v {
        Tree::Str(s) => s,
        Tree::Float(s) => s,
        Tree::Int(i) => decimal(i as int),
        _ => Seq::empty(),
    }
}

/// How one child of a font record is written: an attribute as ` key="value"`,
/// anything else as nothing.
pub open spec fn exfont_attr(el: Tree) -> Seq<char> {
    match el {
        Tree::KeyVal(k, v) => " "@ + k + "=\""@ + attr_text(*v) + "\""@,
        _ => Seq::empty(),
    }
}

/// The attributes of a font record, in stored order.
pub open spec fn exfont_attrs(items: Seq<Tree>) -> Seq<char>
    decreases items.len(),
{
    if items.len() == 0 {
        Seq::empty()
    } else {
        exfont_attrs(items.drop_last()) + exfont_attr(items.last())
    }
}

/// The state after a record tagged `tag`, or nothing where the tag is unknown.
pub open spec fn markup_tag(st: MarkupState, el: Tree, tag: Seq<char>) -> Option<MarkupState> {
    if tag == "rt2"@ || tag == "ret2"@ {
        Some(MarkupState { out: st.out + "\n"@, ..st })
    } else if tag == "ruby"@ || tag == "txruby"@ {
        match st.ruby {
            Some(rt) => Some(MarkupState { out: st.out + ruby_close(rt), ruby: None, ..st }),
            None => {
                let rt = match el.str_attr("text"@) {
                    Some(t) => t,
                    None => Seq::empty(),
                };
                if rt.len() > 0 {
                    Some(MarkupState { out: st.out + "<ruby>"@, ruby: Some(rt), ..st })
                } else {
                    Some(st)
                }
            },
        }
    } else if tag == "/ruby"@ {
        match st.ruby {
            Some(rt) => Some(MarkupState { out: st.out + ruby_close(rt), ruby: None, ..st }),
            None => Some(MarkupState { out: st.out + "</ruby>"@, ..st }),
        }
    } else if tag == "exfont"@ {
        if st.in_exfont {
            Some(MarkupState { out: st.out + "</exfont>"@, in_exfont: false, ..st })
        } else {
            Some(
                MarkupState {
                    out: st.out + "<exfont"@ + exfont_attrs(el.items()) + ">"@,
                    in_exfont: true,
                    ..st
                },
            )
        }
    } else {
        None
    }
}

/// The state after the run `el`, or nothing where `el` is not valid markup.
pub open spec fn markup_step(st: MarkupState, el: Tree) -> Option<MarkupState> {
    match el {
        Tree::Str(s) => Some(MarkupState { out: st.out + s, ..st }),
        Tree::KeyVal(_, _) => Some(st),
        Tree::Array(_) => match el.tag() {
            Some(tag) => markup_tag(st, el, tag),
            None => None,
        },
        _ => None,
    }
}

/// The state after the runs `els`, taken from left to right, or the first run
/// that is not valid markup.
pub open spec fn markup_run(st: MarkupState, els: Seq<Tree>) -> Result<MarkupState, Tree>
    decreases els.len(),
{
    if els.len() == 0 {
        Ok(st)
    } else {
        match markup_step(st, els[0]) {
            Some(next) => markup_run(next, els.drop_first()),
            None => Err(els[0]),
        }
    }
}

/// Why a line could not be tokenized.
#[derive(Debug)]
pub enum TokenizeError {
    /// A run of the block `block_name` is neither text nor known markup.
    InvalidMarkup { block_name: String, offending: Value },
}

/// The mathematical value of a `TokenizeError`.
pub enum TokenizeErrorModel {
    InvalidMarkup { block_name: Seq<char>, offending: Tree },
}

impl DeepView for TokenizeError {
    type V = TokenizeErrorModel;

    open spec fn deep_view(&self) -> TokenizeErrorModel {
        match self {
            TokenizeError::InvalidMarkup { block_name, offending } => {
                TokenizeErrorModel::InvalidMarkup {
                    block_name: block_name@,
                    offending: offending@,
                }
            },
        }
    }
}

impl View for TokenizeError {
    type V = TokenizeErrorModel;

    open spec fn view(&self) -> TokenizeErrorModel {
        self.deep_view()
    }
}

/// The text of the line `runs` of the block `context`: its runs taken from
/// left to right, starting with no text, no open ruby and no open font. A node
/// that is not an array has no runs.
pub open spec fn tokenized(runs: Tree, context: Seq<char>) -> Result<
    Seq<char>,
    TokenizeErrorModel,
> {
    let start = MarkupState { out: Seq::empty(), ruby: None, in_exfont: false };
    match markup_run(start, runs.items()) {
        Ok(st) => Ok(st.out),
        Err(el) => Err(TokenizeErrorModel::InvalidMarkup { block_name: context, offending: el }),
    }
}

/// Whether `tag` is a tag that the tokenizer knows.
pub open spec fn known_tag(tag: Seq<char>) -> bool {
    tag == "rt2"@ || tag == "ret2"@ || tag == "ruby"@ || tag == "txruby"@ || tag == "/ruby"@ || tag
        == "exfont"@
}

/// Whether `el` can stand among the runs of a line: a string, an attribute,
/// or a record with a known tag.
pub open spec fn valid_run(el: Tree) -> bool {
    match el {
        Tree::Str(_) => true,
        Tree::KeyVal(_, _) => true,
        Tree::Array(_) => match el.tag() {
            Some(tag) => known_tag(tag),
            None => false,
        },
        _ => false,
    }
}

/// Whether the tokenizer gets past a run depends on the run alone, not on
/// what it has read before.
pub proof fn lemma_markup_step_valid(st: MarkupState, el: Tree)
    ensures
        markup_step(st, el) is Some <==> valid_run(el),
{
}

/// A line is tokenized if and only if each of its runs can stand there. A
/// line with a run that cannot, such as a record with an unknown tag, is
/// rejected, and the failure names the block and the first such run.
pub proof fn lemma_tokenized_failure(runs: Seq<Tree>, context: Seq<char>)
    ensures
        (match tokenized(Tree::Array(runs), context) {
            Ok(_) => forall|i: int| 0 <= i < runs.len() ==> valid_run(#[trigger] runs[i]),
            Err(e) => exists|i: int|
                {
                    &&& 0 <= i < runs.len()
                    &&& !valid_run(#[trigger] runs[i])
                    &&& forall|j: int| 0 <= j < i ==> valid_run(#[trigger] runs[j])
                    &&& e == TokenizeErrorModel::InvalidMarkup {
                        block_name: context,
                        offending: runs[i],
                    }
                },
        }),
{
    let start = MarkupState { out: Seq::empty(), ruby: None, in_exfont: false };
    lemma_markup_run_failure(start, runs);
}

/// The runs `els` are got past if and only if each of them can stand in a
/// line; else the first that cannot is what the failure holds.
proof fn lemma_markup_run_failure(st: MarkupState, els: Seq<Tree>)
    ensures
        (match markup_run(st, els) {
            Ok(_) => forall|i: int| 0 <= i < els.len() ==> valid_run(#[trigger] els[i]),
            Err(el) => exists|i: int|
                {
                    &&& 0 <= i < els.len()
                    &&& !valid_run(#[trigger] els[i])
                    &&& forall|j: int| 0 <= j < i ==> valid_run(#[trigger] els[j])
                    &&& el == els[i]
                },
        }),
    decreases els.len(),
{
    if els.len() > 0 {
        lemma_markup_step_valid(st, els[0]);
        match markup_step(st, els[0]) {
            Some(next) => {
                let rest = els.drop_first();
                lemma_markup_run_failure(next, rest);
                match markup_run(next, rest) {
                    Ok(_) => {
                        assert forall|i: int| 0 <= i < els.len() implies valid_run(
                            #[trigger] els[i],
                        ) by {
                            if i > 0 {
                                assert(els[i] == rest[i - 1]);
                            }
                        }
                    },
                    Err(el) => {
                        let i = choose|i: int|
                            {
                                &&& 0 <= i < rest.len()
                                &&& !valid_run(#[trigger] rest[i])
                                &&& forall|j: int| 0 <= j < i ==> valid_run(#[trigger] rest[j])
                                &&& el == rest[i]
                            };
                        assert forall|j: int| 0 <= j < i + 1 implies valid_run(
                            #[trigger] els[j],
                        ) by {
                            if j > 0 {
                                assert(els[j] == rest[j - 1]);
                            }
                        }
                    },
                }
            },
            None => {},
        }
    }
}

/// Appends what closes a ruby annotation with the reading `rt`.
fn push_ruby_close(out: &mut String, rt: &str)
    ensures
        final(out)@ == old(out)@ + ruby_close(rt@),
{
    out.append("<rt>");
    out.append(rt);
    out.append("</rt></ruby>");
    assert(out@ =~= old(out)@ + ruby_close(rt@));
}

/// Appends the attributes of the font record `items` to `out`.
fn push_exfont_attrs(out: &mut String, items: &Vec<Value>)
    ensures
        final(out)@ == old(out)@ + exfont_attrs(trees(items@)),
{
    let ghost all = trees(items@);
    let n = items.len();
    let mut i: usize = 0;
    while i < n
        invariant
            i <= n,
            n == items@.len(),
            all == trees(items@),
            out@ == old(out)@ + exfont_attrs(all.take(i as int)),
        decreases n - i,
    {
        match &items[i] {
            Value::KeyVal((k, v)) => {
                out.append(" ");
                out.append(k.as_str());
                out.append("=\"");
                match &**v {
                    Value::Str(s) => {
                        out.append(s.as_str());
                    },
                    Value::Float(s) => {
                        out.append(s.as_str());
                    },
                    Value::Int(number) => {
                        push_decimal(out, *number);
                    },
                    _ => {},
                }
                out.append("\"");
                assert(items@[i as int]@ == Tree::KeyVal(k@, Box::new(v@)));
            },
            _ => {},
        }
        proof {
            lemma_trees(items@);
            assert(all.take(i + 1).drop_last() =~= all.take(i as int));
        }
        i += 1;
    }
    assert(all.take(n as int) =~= all);
}

/// Compiles the runs of one line into its text. `context` names the block
/// that the line belongs to; it is what an error reports.
pub fn tokenize(runs: &Value, context: &str) -> (r: Result<String, TokenizeError>)
    ensures
        result_view(r) == tokenized(runs@, context@),
{
    let mut text = String::new();
    let mut ruby_rt: Option<&str> = None;
    let mut in_exfont = false;
    let ghost start = MarkupState { out: Seq::empty(), ruby: None, in_exfont: false };
    match runs {
        Value::Array(items) => {
            let ghost all = trees(items@);
            let n = items.len();
            let mut i: usize = 0;
            assert(all.skip(0) =~= all);
            while i < n
                invariant
                    i <= n,
                    n == items@.len(),
                    all == trees(items@),
                    runs@ == Tree::Array(all),
                    start == (MarkupState { out: Seq::empty(), ruby: None, in_exfont: false }),
                    markup_run(start, all) == markup_run(
                        MarkupState { out: text@, ruby: ruby_rt.deep_view(), in_exfont },
                        all.skip(i as int),
                    ),
                decreases n - i,
            {
                let el = &items[i];
                proof {
                    lemma_trees(items@);
                    assert(all.skip(i as int).drop_first() =~= all.skip(i + 1));
                }
                let mut valid = true;
                match el {
                    Value::Str(s) => {
                        text.append(s.as_str());
                    },
                    Value::KeyVal(_) => {},
                    Value::Array(children) => {
                        match el.tag() {
                            Some(tag) => {
                                if str_eq(tag, "rt2") || str_eq(tag, "ret2") {
                                    text.append("\n");
                                } else if str_eq(tag, "ruby") || str_eq(tag, "txruby") {
                                    match ruby_rt {
                                        Some(rt) => {
                                            push_ruby_close(&mut text, rt);
                                            ruby_rt = None;
                                        },
                                        None => {
                                            let rt = match el.str_attr("text") {
                                                Some(t) => t,
                                                None => "",
                                            };
                                            proof {
                                                reveal_strlit("");
                                            }
                                            if !rt.is_empty() {
                                                text.append("<ruby>");
                                                ruby_rt = Some(rt);
                                            }
                                        },
                                    }
                                } else if str_eq(tag, "/ruby") {
                                    match ruby_rt {
                                        Some(rt) => {
                                            push_ruby_close(&mut text, rt);
                                            ruby_rt = None;
                                        },
                                        None => {
                                            text.append("</ruby>");
                                        },
                                    }
                                } else if str_eq(tag, "exfont") {
                                    if in_exfont {
                                        text.append("</exfont>");
                                        in_exfont = false;
                                    } else {
                                        text.append("<exfont");
                                        push_exfont_attrs(&mut text, children);
                                        text.append(">");
                                        in_exfont = true;
                                    }
                                } else {
                                    valid = false;
                                }
                            },
                            None => {
                                valid = false;
                            },
                        }
                    },
                    _ => {
                        valid = false;
                    },
                }
                if !valid {
                    return Err(
                        TokenizeError::InvalidMarkup {
                            block_name: context.to_owned(),
                            offending: el.clone(),
                        },
                    );
                }
                i += 1;
            }
        },
        _ => {},
    }
    Ok(text)
}

} // verus!
