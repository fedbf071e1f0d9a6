use vstd::prelude::*;

use crate::json_merge::lemma_merged_wf;
use crate::json_merge::merge;
use crate::json_merge::merged;
use crate::tree::Tree;
use crate::tree::TreeValue;

verus! {

#[verifier::external_type_specification]
#[verifier::external_body]
pub struct ExJsonValue(serde_json::Value);

/// What the outside codec parses the given comment-bearing JSON text into:
/// `None` when the text is not valid, the parsed tree otherwise.
pub uninterp spec fn json_parse(text: Seq<char>) -> Option<Tree>;

/// Relies on serde_json::Value: turns the parsed value into the library's
/// tree, variant by variant; a number is taken as a signed integer.
#[verifier::external_body]
fn tree_of_json(v: serde_json::Value) -> (t: TreeValue) {
    match v {
        serde_json::Value::Null => TreeValue::Null,
        serde_json::Value::Bool(b) => TreeValue::Bool(b),
        serde_json::Value::Number(n) => TreeValue::Num(n.as_i64().unwrap_or(0)),
        serde_json::Value::String(s) => TreeValue::Str(s),
        serde_json::Value::Array(items) => TreeValue::Arr(
            items.into_iter().map(tree_of_json).collect(),
        ),
        serde_json::Value::Object(map) => TreeValue::Obj(
            map.into_iter().map(|p| (p.0, tree_of_json(p.1))).collect(),
        ),
    }
}

/// Relies on json_comments::StripComments and serde_json::from_reader: strips
/// comments, then parses JSON text; what is parsed depends on the text alone,
/// and an object parsed from serde_json's map never repeats a key.
#[verifier::external_body]
fn parse_text(text: &str) -> (r: Option<TreeValue>)
    ensures
        r matches Some(t) ==> json_parse(text@) == Some(t@) && t@.wf(),
        r is None ==> json_parse(text@) is None,
{
    let stripped = json_comments::StripComments::new(text.as_bytes());
    match serde_json::from_reader::<_, serde_json::Value>(stripped) {
        Ok(v) => Some(tree_of_json(v)),
        Err(_) => None,
    }
}

/// The stage at which a layered resolution failed.
#[derive(Debug, Clone, Copy, PartialEq, Eq, Structural)]
pub enum ConfigError {
    /// The default source is mandatory and its text did not parse.
    DefaultInvalid,
    /// A user source was given and its text did not parse.
    UserInvalid,
}

/// The accumulated tree after the optional command-line override layer.
pub open spec fn with_override(t: Tree, cmdline: Option<Tree>) -> Tree {
    match cmdline {
        Some(c) => merged(t, c),
        None => t,
    }
}

/// The outcome of resolving the three layers over the given texts: the
/// default must parse, a present user text must parse and is merged onto the
/// default, and a present command-line tree is merged last.
pub open spec fn resolved(
    default_text: Seq<char>,
    user_text: Option<Seq<char>>,
    cmdline: Option<Tree>,
) -> Result<Tree, ConfigError> {
    match json_parse(default_text) {
        None => Err(ConfigError::DefaultInvalid),
        Some(d) => match user_text {
            Some(u) => match json_parse(u) {
                None => Err(ConfigError::UserInvalid),
                Some(uv) => Ok(with_override(merged(d, uv), cmdline)),
            },
            None => Ok(with_override(d, cmdline)),
        },
    }
}

/// The text of an optional source.
pub open spec fn source_view(s: Option<&str>) -> Option<Seq<char>> {
    match s {
        Some(t) => Some(t@),
        None => None,
    }
}

/// The model of an optional override tree.
pub open spec fn override_view(c: Option<TreeValue>) -> Option<Tree> {
    match c {
        Some(t) => Some(t@),
        None => None,
    }
}

/// Resolves a configuration from up to three layers, in rising precedence:
/// the mandatory default text, the optional user text, and the optional
/// command-line override already in tree form. Each present layer is merged
/// onto the accumulated tree; an unparsable default or user text fails the
/// whole resolution with the stage's error.
pub fn load(default_text: &str, user_text: Option<&str>, cmdline: Option<TreeValue>) -> (r: Result<
    TreeValue,
    ConfigError,
>)
    ensures
        match r {
            Ok(t) => resolved(default_text@, source_view(user_text), override_view(cmdline))
                == Ok::<Tree, ConfigError>(t@),
            Err(e) => resolved(default_text@, source_view(user_text), override_view(cmdline))
                == Err::<Tree, ConfigError>(e),
        },
        (override_view(cmdline) matches Some(c) ==> c.wf()) ==> (r matches Ok(t) ==> t@.wf()),
{
    let mut acc = match parse_text(default_text) {
        None => {
            return Err(ConfigError::DefaultInvalid);
        },
        Some(d) => d,
    };
    match user_text {
        Some(u) => {
            match parse_text(u) {
                None => {
                    return Err(ConfigError::UserInvalid);
                },
                Some(uv) => {
                    let ghost pre = acc@;
                    merge(&mut acc, uv);
                    proof {
                        lemma_merged_wf(pre, uv@);
                    }
                },
            }
        },
        None => {},
    }
    match cmdline {
        Some(c) => {
            let ghost pre = acc@;
            merge(&mut acc, c);
            proof {
                if c@.wf() {
                    lemma_merged_wf(pre, c@);
                }
            }
        },
        None => {},
    }
    Ok(acc)
}

} // verus!
