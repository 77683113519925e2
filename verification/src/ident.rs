use vstd::prelude::*;

use crate::text::{
    count_char, count_matches, free_of, has_prefix, has_prefix_spec,
    join_prefix_colon, join_with, lemma_count_free, lemma_join_decompose, lemma_split_free,
    lemma_split_join_roundtrip, lemma_split_on_len, split_char, split_on,
};

verus! {

/// A compound secret identifier, taken apart:
/// `name[:json_pointer[:version_stage[:version_id]]]`, either in short form
/// or with the name given as a full secret-store ARN.
pub struct ParsedIdentifier {
    pub name: String,
    pub json_pointer: Option<String>,
    pub version_stage: Option<String>,
    pub version_id: Option<String>,
}

/// The mathematical shape of a parsed identifier.
pub struct IdentifierModel {
    pub name: Seq<char>,
    pub json_pointer: Option<Seq<char>>,
    pub version_stage: Option<Seq<char>>,
    pub version_id: Option<Seq<char>>,
}

impl View for ParsedIdentifier {
    type V = IdentifierModel;

    open spec fn view(&self) -> IdentifierModel {
        IdentifierModel {
            name: self.name@,
            json_pointer: self.json_pointer.deep_view(),
            version_stage: self.version_stage.deep_view(),
            version_id: self.version_id.deep_view(),
        }
    }
}

/// Failure to take an identifier apart.
#[derive(Clone, Copy, PartialEq, Eq, Structural, Debug)]
pub enum ParseError {
    /// The string is in ARN form but has fewer components than an ARN needs.
    MalformedArn,
}

/// The fixed prefix that marks the ARN form of a secret identifier.
pub open spec fn arn_prefix() -> Seq<char> {
    "arn:aws:secretsmanager:"@
}

/// What parsing an identifier string returns.
///
/// An ARN-form string (it starts with the ARN prefix and holds at least six
/// colons) keeps its first seven colon-separated components, rejoined, as the
/// name; components seven to nine, where present, are the JSON pointer, the
/// version stage and the version id. Any other string is in short form: the
/// first component, even when empty, is the name, and components one to three,
/// where present, are the three optional fields. Absent components are `None`.
pub open spec fn parse_id_spec(s: Seq<char>) -> Result<IdentifierModel, ParseError> {
    let parts = split_on(s, ':');
    if count_matches(s, ':') >= 6 && has_prefix_spec(s, arn_prefix()) {
        if parts.len() < 7 {
            Err(ParseError::MalformedArn)
        } else {
            Ok(
                IdentifierModel {
                    name: join_with(parts.take(7), ':'),
                    json_pointer: if parts.len() > 7 {
                        Some(parts[7])
                    } else {
                        None
                    },
                    version_stage: if parts.len() > 8 {
                        Some(parts[8])
                    } else {
                        None
                    },
                    version_id: if parts.len() > 9 {
                        Some(parts[9])
                    } else {
                        None
                    },
                },
            )
        }
    } else {
        Ok(
            IdentifierModel {
                name: parts[0],
                json_pointer: if parts.len() > 1 {
                    Some(parts[1])
                } else {
                    None
                },
                version_stage: if parts.len() > 2 {
                    Some(parts[2])
                } else {
                    None
                },
                version_id: if parts.len() > 3 {
                    Some(parts[3])
                } else {
                    None
                },
            },
        )
    }
}

/// The model of a parse result.
pub open spec fn parse_result_model(r: Result<ParsedIdentifier, ParseError>) -> Result<
    IdentifierModel,
    ParseError,
> {
    match r {
        Ok(id) => Ok(id@),
        Err(e) => Err(e),
    }
}

/// Takes a secret identifier string apart into its name and optional
/// JSON pointer, version stage and version id, recognizing both the short
/// form and the full ARN form.
pub fn parse_secret_identifier(secret_id: &str) -> (r: Result<ParsedIdentifier, ParseError>)
    ensures
        parse_result_model(r) == parse_id_spec(secret_id@),
{
    let colon_count = count_char(secret_id, ':');
    let arn_form = colon_count >= 6 && has_prefix(secret_id, "arn:aws:secretsmanager:");
    let parts = split_char(secret_id, ':');
    proof {
        lemma_split_on_len(secret_id@, ':');
    }
    if arn_form {
        if parts.len() < 7 {
            return Err(ParseError::MalformedArn);
        }
        let name = join_prefix_colon(&parts, 7);
        let json_pointer = if parts.len() > 7 {
            Some(parts[7].clone())
        } else {
            None
        };
        let version_stage = if parts.len() > 8 {
            Some(parts[8].clone())
        } else {
            None
        };
        let version_id = if parts.len() > 9 {
            Some(parts[9].clone())
        } else {
            None
        };
        Ok(ParsedIdentifier { name, json_pointer, version_stage, version_id })
    } else {
        let name = parts[0].clone();
        let json_pointer = if parts.len() > 1 {
            Some(parts[1].clone())
        } else {
            None
        };
        let version_stage = if parts.len() > 2 {
            Some(parts[2].clone())
        } else {
            None
        };
        let version_id = if parts.len() > 3 {
            Some(parts[3].clone())
        } else {
            None
        };
        Ok(ParsedIdentifier { name, json_pointer, version_stage, version_id })
    }
}

/// A short-form identifier built from four colon-free fields parses back to
/// exactly those fields.
pub proof fn lemma_parse_short_form_full(name: Seq<char>, jp: Seq<char>, stage: Seq<char>, ver: Seq<char>)
    requires
        free_of(name, ':'),
        free_of(jp, ':'),
        free_of(stage, ':'),
        free_of(ver, ':'),
    ensures
        parse_id_spec(join_with(seq![name, jp, stage, ver], ':')) == Ok::<IdentifierModel, ParseError>(
            IdentifierModel {
                name: name,
                json_pointer: Some(jp),
                version_stage: Some(stage),
                version_id: Some(ver),
            },
        ),
{
    let parts = seq![name, jp, stage, ver];
    let s = join_with(parts, ':');
    assert(forall|i: int| 0 <= i < parts.len() ==> free_of(#[trigger] parts[i], ':'));
    lemma_split_join_roundtrip(parts, ':');
    lemma_split_on_len(s, ':');
}

/// A colon-free identifier string parses to that name alone, with every
/// optional field absent.
pub proof fn lemma_parse_short_form_name(name: Seq<char>)
    requires
        free_of(name, ':'),
    ensures
        parse_id_spec(name) == Ok::<IdentifierModel, ParseError>(
            IdentifierModel {
                name: name,
                json_pointer: None::<Seq<char>>,
                version_stage: None::<Seq<char>>,
                version_id: None::<Seq<char>>,
            },
        ),
{
    lemma_split_free(name, ':');
    lemma_count_free(name, ':');
}

/// An ARN-form identifier built from seven to ten colon-free components,
/// the first three reading `arn`, `aws` and `secretsmanager`, parses back to
/// the first seven components rejoined as the name, and to each further
/// component, in order, as the JSON pointer, the version stage and the
/// version id; absent components come back absent.
pub proof fn lemma_parse_arn_form(parts: Seq<Seq<char>>)
    requires
        7 <= parts.len() <= 10,
        forall|i: int| 0 <= i < parts.len() ==> free_of(#[trigger] parts[i], ':'),
        parts[0] == "arn"@,
        parts[1] == "aws"@,
        parts[2] == "secretsmanager"@,
    ensures
        parse_id_spec(join_with(parts, ':')) == Ok::<IdentifierModel, ParseError>(
            IdentifierModel {
                name: join_with(parts.take(7), ':'),
                json_pointer: if parts.len() > 7 {
                    Some(parts[7])
                } else {
                    None
                },
                version_stage: if parts.len() > 8 {
                    Some(parts[8])
                } else {
                    None
                },
                version_id: if parts.len() > 9 {
                    Some(parts[9])
                } else {
                    None
                },
            },
        ),
{
    let s = join_with(parts, ':');
    lemma_split_join_roundtrip(parts, ':');
    lemma_split_on_len(s, ':');
    lemma_join_decompose(parts, 3, ':');
    let head = parts.take(3);
    assert(head.drop_last() =~= seq![parts[0], parts[1]]);
    assert(head.drop_last().drop_last() =~= seq![parts[0]]);
    assert(join_with(head, ':') == join_with(seq![parts[0], parts[1]], ':').push(':')
        + parts[2]);
    assert(join_with(seq![parts[0], parts[1]], ':') == join_with(seq![parts[0]], ':').push(
        ':',
    ) + parts[1]);
    reveal_strlit("arn");
    reveal_strlit("aws");
    reveal_strlit("secretsmanager");
    reveal_strlit("arn:aws:secretsmanager:");
    assert(join_with(head, ':').push(':') =~= arn_prefix());
    assert(s == join_with(head, ':').push(':') + join_with(parts.skip(3), ':'));
    assert(s.take(arn_prefix().len() as int) =~= arn_prefix());
}

} // verus!
