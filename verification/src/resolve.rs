use vstd::prelude::*;

use crate::groups::{classify_spec, group_targets, GroupMap, GroupsModel};
use crate::ident::{parse_id_spec, parse_secret_identifier, ParseError, ParsedIdentifier};
use crate::kv::KvMap;

verus! {

/// What a JMESPath query selects from a JSON document, as serialized text;
/// `None` when the expression does not compile, the document is not JSON, or
/// evaluation fails. The selection is a function of the two strings alone.
pub uninterp spec fn json_query(pointer: Seq<char>, document: Seq<char>) -> Option<Seq<char>>;

/// The longest JSON pointer the query engine is handed. The engine parses
/// and evaluates an expression by recursion on its structure with no depth
/// limit of its own, so an unbounded expression could exhaust the stack;
/// an expression of at most this many characters keeps that recursion
/// safely shallow, and a field selector is far shorter anyway.
pub const MAX_QUERY_LEN: usize = 256;

/// Whether a JSON pointer is small enough to hand to the query engine.
pub open spec fn query_within_limit_spec(pointer: Seq<char>) -> bool {
    pointer.len() <= MAX_QUERY_LEN
}

/// Decides whether a JSON pointer is small enough to hand to the query
/// engine.
pub fn query_within_limit(pointer: &str) -> (r: bool)
    ensures
        r == query_within_limit_spec(pointer@),
{
    pointer.unicode_len() <= MAX_QUERY_LEN
}

/// Relies on jmespath::compile, jmespath::Variable::from_json and
/// jmespath::Expression::search: compiling an expression, parsing a JSON
/// document and evaluating the one against the other is deterministic in the
/// two strings, and the displayed result is the JSON serialization of the
/// selected value. Within the expression length bound — the engine recurses
/// on the expression's structure without a depth limit of its own, so the
/// bound is owed — every failure along the way comes back as `None`.
#[verifier::external_body]
fn run_json_query(pointer: &str, document: &str) -> (r: Option<String>)
    requires
        query_within_limit_spec(pointer@),
    ensures
        r.deep_view() == json_query(pointer@, document@),
{
    let expr = match jmespath::compile(pointer) {
        Ok(e) => e,
        Err(_) => return None,
    };
    let data = match jmespath::Variable::from_json(document) {
        Ok(d) => d,
        Err(_) => return None,
    };
    match expr.search(data) {
        Ok(v) => Some(v.to_string()),
        Err(_) => None,
    }
}

/// One pair of surrounding double quotes removed, when both are present.
pub open spec fn strip_quote_pair_spec(s: Seq<char>) -> Seq<char> {
    if s.len() >= 2 && s[0] == '"' && s[s.len() - 1] == '"' {
        s.subrange(1, s.len() - 1)
    } else {
        s
    }
}

/// Strips one pair of surrounding double quotes, when both are present.
pub fn strip_quote_pair(s: &str) -> (r: String)
    ensures
        r@ == strip_quote_pair_spec(s@),
{
    let len = s.unicode_len();
    if len >= 2 && s.get_char(0) == '"' && s.get_char(len - 1) == '"' {
        s.substring_char(1, len - 1).to_owned()
    } else {
        s.to_owned()
    }
}

/// The value a secret payload contributes: the payload itself when no JSON
/// pointer is given, and otherwise the query's textual result with one pair
/// of surrounding quotes stripped, since the query engine serializes string
/// results with quotes. A pointer over the length bound, like one that
/// cannot be compiled or evaluated, yields nothing.
pub open spec fn secret_value_spec(pointer: Option<Seq<char>>, payload: Seq<char>) -> Option<
    Seq<char>,
> {
    match pointer {
        None => Some(payload),
        Some(p) => if !query_within_limit_spec(p) {
            None
        } else {
            match json_query(p, payload) {
                None => None,
                Some(raw) => Some(strip_quote_pair_spec(raw)),
            }
        },
    }
}

/// Evaluates a JSON pointer against a secret payload and unquotes the
/// serialized result; `None` when the pointer is over the length bound or
/// the query cannot be compiled or evaluated.
pub fn extract_json_value(pointer: &str, document: &str) -> (r: Option<String>)
    ensures
        r.deep_view() == secret_value_spec(Some(pointer@), document@),
{
    if !query_within_limit(pointer) {
        return None;
    }
    match run_json_query(pointer, document) {
        Some(raw) => Some(strip_quote_pair(raw.as_str())),
        None => None,
    }
}

/// What one secret fetch came back with: a payload that may lack its secret
/// string, or a transport failure with its message.
pub enum SecretOutcome {
    Fetched(Option<String>),
    TransportFailed(String),
}

/// The mathematical shape of a fetch outcome.
pub enum OutcomeModel {
    Fetched(Option<Seq<char>>),
    TransportFailed(Seq<char>),
}

impl View for SecretOutcome {
    type V = OutcomeModel;

    open spec fn view(&self) -> OutcomeModel {
        match self {
            SecretOutcome::Fetched(p) => OutcomeModel::Fetched(p.deep_view()),
            SecretOutcome::TransportFailed(m) => OutcomeModel::TransportFailed(m@),
        }
    }
}

impl DeepView for SecretOutcome {
    type V = OutcomeModel;

    open spec fn deep_view(&self) -> OutcomeModel {
        self.view()
    }
}

/// Why a resolution pass failed as a whole.
#[derive(Debug)]
pub enum ResolveError {
    /// A secret identifier could not be taken apart.
    IdentifierParse(ParseError),
    /// The transport collaborator failed; the message is its description.
    Transport(String),
    /// A secret came back without a secret string.
    MissingSecretString,
    /// A JSON pointer could not be compiled or evaluated against a payload.
    QueryFailed,
}

/// The mathematical shape of a resolution failure.
pub enum ResolveErrorModel {
    IdentifierParse(ParseError),
    Transport(Seq<char>),
    MissingSecretString,
    QueryFailed,
}

impl View for ResolveError {
    type V = ResolveErrorModel;

    open spec fn view(&self) -> ResolveErrorModel {
        match self {
            ResolveError::IdentifierParse(e) => ResolveErrorModel::IdentifierParse(*e),
            ResolveError::Transport(m) => ResolveErrorModel::Transport(m@),
            ResolveError::MissingSecretString => ResolveErrorModel::MissingSecretString,
            ResolveError::QueryFailed => ResolveErrorModel::QueryFailed,
        }
    }
}

/// Every target key bound to the value `v`, on top of `m`.
pub open spec fn insert_targets(
    m: Map<Seq<char>, Seq<char>>,
    targets: Seq<Seq<char>>,
    v: Seq<char>,
) -> Map<Seq<char>, Seq<char>>
    decreases targets.len(),
{
    if targets.len() == 0 {
        m
    } else {
        insert_targets(m, targets.drop_last(), v).insert(targets.last(), v)
    }
}

/// The parameter batch fanned out: each returned pair binds every target key
/// grouped under the returned name to the returned value; a returned name
/// that no group carries binds nothing, and a requested name the response
/// omits is silently left unresolved.
pub open spec fn fan_out_params_spec(
    pg: GroupsModel,
    response: Seq<(Seq<char>, Seq<char>)>,
    m: Map<Seq<char>, Seq<char>>,
) -> Map<Seq<char>, Seq<char>>
    decreases response.len(),
{
    if response.len() == 0 {
        m
    } else {
        insert_targets(
            fan_out_params_spec(pg, response.drop_last(), m),
            group_targets(pg, response.last().0),
            response.last().1,
        )
    }
}

/// The secret groups applied in order, fail-fast: each group's identifier is
/// parsed, its fetch outcome inspected, and the payload's value fanned out to
/// the group's target keys; the first parse failure, transport failure,
/// missing secret string or failed query aborts the whole pass.
pub open spec fn apply_secrets_spec(
    sg: GroupsModel,
    outcomes: Seq<OutcomeModel>,
    m: Map<Seq<char>, Seq<char>>,
) -> Result<Map<Seq<char>, Seq<char>>, ResolveErrorModel>
    decreases sg.len(),
{
    if sg.len() == 0 {
        Ok(m)
    } else {
        match parse_id_spec(sg[0].0) {
            Err(e) => Err(ResolveErrorModel::IdentifierParse(e)),
            Ok(idm) => match outcomes[0] {
                OutcomeModel::TransportFailed(msg) => Err(ResolveErrorModel::Transport(msg)),
                OutcomeModel::Fetched(payload_opt) => match payload_opt {
                    None => Err(ResolveErrorModel::MissingSecretString),
                    Some(payload) => match secret_value_spec(idm.json_pointer, payload) {
                        None => Err(ResolveErrorModel::QueryFailed),
                        Some(v) => apply_secrets_spec(
                            sg.drop_first(),
                            outcomes.drop_first(),
                            insert_targets(m, sg[0].1, v),
                        ),
                    },
                },
            },
        }
    }
}

/// The remote layer a resolution pass yields: the parameter batch fanned out
/// best-effort, then the secret groups applied fail-fast.
pub open spec fn resolve_spec(
    pg: GroupsModel,
    sg: GroupsModel,
    response: Seq<(Seq<char>, Seq<char>)>,
    outcomes: Seq<OutcomeModel>,
) -> Result<Map<Seq<char>, Seq<char>>, ResolveErrorModel> {
    apply_secrets_spec(sg, outcomes, fan_out_params_spec(pg, response, Map::empty()))
}

/// The identifiers to name in the one batched parameter fetch: each group's
/// identifier, in order.
pub fn param_request_names(groups: &GroupMap) -> (r: Vec<String>)
    ensures
        r.deep_view() == Seq::new(groups@.len(), |i: int| groups@[i].0),
{
    let n = groups.len();
    let mut r: Vec<String> = Vec::new();
    let mut i: usize = 0;
    while i < n
        invariant
            i <= n,
            n == groups@.len(),
            r.deep_view() == Seq::new(i as nat, |j: int| groups@[j].0),
        decreases n - i,
    {
        let ghost prev = r.deep_view();
        r.push(groups.id_at(i).clone());
        proof {
            assert(r.deep_view() =~= prev.push(groups@[i as int].0));
            assert(r.deep_view() =~= Seq::new((i + 1) as nat, |j: int| groups@[j].0));
        }
        i = i + 1;
    }
    r
}

/// Parses every secret group's identifier, in order, so that one fetch per
/// group can be issued; the first identifier that cannot be taken apart
/// fails the whole plan.
pub fn plan_secret_fetches(groups: &GroupMap) -> (r: Result<Vec<ParsedIdentifier>, ParseError>)
    ensures
        match r {
            Ok(ids) => ids.deep_view().len() == groups@.len() && forall|i: int|
                0 <= i < groups@.len() ==> parse_id_spec((#[trigger] groups@[i]).0) == Ok::<
                    crate::ident::IdentifierModel,
                    ParseError,
                >(ids.deep_view()[i]),
            Err(e) => exists|i: int|
                0 <= i < groups@.len() && parse_id_spec((#[trigger] groups@[i]).0) == Err::<
                    crate::ident::IdentifierModel,
                    ParseError,
                >(e),
        },
{
    let n = groups.len();
    let mut ids: Vec<ParsedIdentifier> = Vec::new();
    let mut i: usize = 0;
    while i < n
        invariant
            i <= n,
            n == groups@.len(),
            ids.deep_view().len() == i,
            forall|j: int|
                0 <= j < i ==> parse_id_spec((#[trigger] groups@[j]).0) == Ok::<
                    crate::ident::IdentifierModel,
                    ParseError,
                >(ids.deep_view()[j]),
        decreases n - i,
    {
        let ghost prev = ids.deep_view();
        match parse_secret_identifier(groups.id_at(i).as_str()) {
            Ok(id) => {
                ids.push(id);
                proof {
                    assert(ids.deep_view() =~= prev.push(ids.deep_view()[i as int]));
                }
            },
            Err(e) => {
                return Err(e);
            },
        }
        i = i + 1;
    }
    Ok(ids)
}

impl DeepView for ParsedIdentifier {
    type V = crate::ident::IdentifierModel;

    open spec fn deep_view(&self) -> crate::ident::IdentifierModel {
        self.view()
    }
}

/// Resolves the remote layer from the grouped identifiers and what the
/// transport collaborator came back with: the parameter batch response is
/// fanned out best-effort, then each secret group's outcome is applied in
/// order, fail-fast, so that an error yields no map at all.
#[verifier::loop_isolation(false)]
pub fn resolve_remote(
    param_groups: &GroupMap,
    secret_groups: &GroupMap,
    param_response: &Vec<(String, String)>,
    secret_outcomes: &Vec<SecretOutcome>,
) -> (r: Result<KvMap, ResolveError>)
    requires
        param_groups.wf(),
        secret_groups.wf(),
        secret_outcomes@.len() == secret_groups@.len(),
    ensures
        match r {
            Ok(m) => m.wf() && resolve_spec(
                param_groups@,
                secret_groups@,
                param_response.deep_view(),
                secret_outcomes.deep_view(),
            ) == Ok::<Map<Seq<char>, Seq<char>>, ResolveErrorModel>(m@),
            Err(e) => resolve_spec(
                param_groups@,
                secret_groups@,
                param_response.deep_view(),
                secret_outcomes.deep_view(),
            ) == Err::<Map<Seq<char>, Seq<char>>, ResolveErrorModel>(e@),
        },
{
    let ghost pg = param_groups@;
    let ghost sg = secret_groups@;
    let ghost resp = param_response.deep_view();
    let ghost outs = secret_outcomes.deep_view();
    let mut out = KvMap::new();

    // Parameter batch: fan each returned pair out to its group's targets.
    let rn = param_response.len();
    let mut i: usize = 0;
    proof {
        assert(resp.take(0) =~= Seq::<(Seq<char>, Seq<char>)>::empty());
    }
    while i < rn
        invariant
            i <= rn,
            rn == param_response.len(),
            pg == param_groups@,
            resp == param_response.deep_view(),
            param_groups.wf(),
            out.wf(),
            out@ == fan_out_params_spec(pg, resp.take(i as int), Map::<Seq<char>, Seq<char>>::empty()),
        decreases rn - i,
    {
        proof {
            assert(resp.take(i + 1).drop_last() =~= resp.take(i as int));
            assert(resp.take(i + 1).last() == resp[i as int]);
        }
        let name = &param_response[i].0;
        let value = &param_response[i].1;
        match param_groups.get_targets(name.as_str()) {
            Some(targets) => {
                let ghost base = out@;
                let ghost ts = targets.deep_view();
                let tn = targets.len();
                let mut j: usize = 0;
                proof {
                    assert(ts.take(0) =~= Seq::<Seq<char>>::empty());
                }
                while j < tn
                    invariant
                        j <= tn,
                        tn == targets.deep_view().len(),
                        ts == targets.deep_view(),
                        out.wf(),
                        out@ == insert_targets(base, ts.take(j as int), value@),
                    decreases tn - j,
                {
                    proof {
                        assert(ts[j as int] == targets@[j as int]@);
                    }
                    proof {
                        assert(ts.take(j + 1).drop_last() =~= ts.take(j as int));
                        assert(ts.take(j + 1).last() == ts[j as int]);
                    }
                    out.insert(targets[j].clone(), value.clone());
                    j = j + 1;
                }
                proof {
                    assert(ts.take(tn as int) =~= ts);
                }
            },
            None => {
                proof {
                    assert(insert_targets(out@, Seq::<Seq<char>>::empty(), resp[i as int].1)
                        =~= out@);
                }
            },
        }
        i = i + 1;
    }
    proof {
        assert(resp.take(rn as int) =~= resp);
    }
    let ghost after_params = out@;

    // Secret groups, in order and fail-fast.
    let sn = secret_groups.len();
    let mut k: usize = 0;
    proof {
        assert(sg.skip(0) =~= sg);
        assert(outs.skip(0) =~= outs);
    }
    while k < sn
        invariant
            k <= sn,
            sn == sg.len(),
            sg == secret_groups@,
            outs == secret_outcomes.deep_view(),
            outs.len() == sg.len(),
            secret_groups.wf(),
            out.wf(),
            apply_secrets_spec(sg.skip(k as int), outs.skip(k as int), out@) == apply_secrets_spec(
                sg,
                outs,
                after_params,
            ),
        decreases sn - k,
    {
        proof {
            assert(sg.skip(k as int)[0] == sg[k as int]);
            assert(outs.skip(k as int)[0] == outs[k as int]);
            assert(outs[k as int] == secret_outcomes@[k as int]@);
            assert(sg.skip(k as int).drop_first() =~= sg.skip(k + 1));
            assert(outs.skip(k as int).drop_first() =~= outs.skip(k + 1));
        }
        let parsed = match parse_secret_identifier(secret_groups.id_at(k).as_str()) {
            Ok(id) => id,
            Err(e) => {
                return Err(ResolveError::IdentifierParse(e));
            },
        };
        let payload = match &secret_outcomes[k] {
            SecretOutcome::TransportFailed(msg) => {
                return Err(ResolveError::Transport(msg.clone()));
            },
            SecretOutcome::Fetched(opt) => match opt {
                None => {
                    return Err(ResolveError::MissingSecretString);
                },
                Some(p) => p,
            },
        };
        let value = match &parsed.json_pointer {
            None => payload.clone(),
            Some(ptr) => match extract_json_value(ptr.as_str(), payload.as_str()) {
                None => {
                    return Err(ResolveError::QueryFailed);
                },
                Some(v) => v,
            },
        };
        let targets = secret_groups.targets_at(k);
        let ghost base = out@;
        let ghost ts = targets.deep_view();
        let tn = targets.len();
        let mut j: usize = 0;
        proof {
            assert(ts.take(0) =~= Seq::<Seq<char>>::empty());
        }
        while j < tn
            invariant
                j <= tn,
                tn == targets.deep_view().len(),
                ts == targets.deep_view(),
                out.wf(),
                out@ == insert_targets(base, ts.take(j as int), value@),
            decreases tn - j,
        {
            proof {
                assert(ts.take(j + 1).drop_last() =~= ts.take(j as int));
                assert(ts.take(j + 1).last() == ts[j as int]);
                assert(ts[j as int] == targets@[j as int]@);
            }
            out.insert(targets[j].clone(), value.clone());
            j = j + 1;
        }
        proof {
            assert(ts.take(tn as int) =~= ts);
        }
        k = k + 1;
    }
    proof {
        assert(sg.skip(sn as int) =~= Seq::<(Seq<char>, Seq<Seq<char>>)>::empty());
        assert(outs.skip(sn as int) =~= Seq::<OutcomeModel>::empty());
    }
    Ok(out)
}

/// A fetch outcome that fails the pass: a transport failure or a payload
/// without its secret string.
pub open spec fn outcome_is_failure(o: OutcomeModel) -> bool {
    match o {
        OutcomeModel::TransportFailed(_) => true,
        OutcomeModel::Fetched(p) => p is None,
    }
}

/// Fail-fast: when any secret fetch failed, applying the secret groups
/// yields an error, never a map.
pub proof fn lemma_apply_secrets_fail_fast(
    sg: GroupsModel,
    outcomes: Seq<OutcomeModel>,
    m: Map<Seq<char>, Seq<char>>,
    i: int,
)
    requires
        0 <= i < sg.len(),
        outcomes.len() == sg.len(),
        outcome_is_failure(outcomes[i]),
    ensures
        apply_secrets_spec(sg, outcomes, m) is Err,
    decreases i,
{
    match parse_id_spec(sg[0].0) {
        Err(_) => {},
        Ok(idm) => {
            if i == 0 {
            } else {
                match outcomes[0] {
                    OutcomeModel::TransportFailed(_) => {},
                    OutcomeModel::Fetched(payload_opt) => match payload_opt {
                        None => {},
                        Some(payload) => match secret_value_spec(idm.json_pointer, payload) {
                            None => {},
                            Some(v) => {
                                assert(outcomes.drop_first()[i - 1] == outcomes[i]);
                                lemma_apply_secrets_fail_fast(
                                    sg.drop_first(),
                                    outcomes.drop_first(),
                                    insert_targets(m, sg[0].1, v),
                                    i - 1,
                                );
                            },
                        },
                    },
                }
            }
        },
    }
}

/// Two keys bound alike: present together and, when present, to one value.
pub open spec fn bound_alike(m: Map<Seq<char>, Seq<char>>, t1: Seq<char>, t2: Seq<char>) -> bool {
    (m.contains_key(t1) <==> m.contains_key(t2)) && (m.contains_key(t1) ==> m[t1] == m[t2])
}

/// Whether `t1` and `t2` stand together in every group of the table: each
/// group lists both or neither.
pub open spec fn co_grouped(g: GroupsModel, t1: Seq<char>, t2: Seq<char>) -> bool {
    forall|i: int| 0 <= i < g.len() ==> ((#[trigger] g[i]).1.contains(t1) <==> g[i].1.contains(t2))
}

proof fn lemma_insert_targets_in(
    m: Map<Seq<char>, Seq<char>>,
    targets: Seq<Seq<char>>,
    v: Seq<char>,
    t: Seq<char>,
)
    requires
        targets.contains(t),
    ensures
        insert_targets(m, targets, v).contains_key(t),
        insert_targets(m, targets, v)[t] == v,
    decreases targets.len(),
{
    if targets.last() == t {
    } else {
        let i = choose|i: int| 0 <= i < targets.len() && targets[i] == t;
        assert(targets.drop_last()[i] == t);
        assert(targets.drop_last().contains(t));
        lemma_insert_targets_in(m, targets.drop_last(), v, t);
    }
}

proof fn lemma_insert_targets_out(
    m: Map<Seq<char>, Seq<char>>,
    targets: Seq<Seq<char>>,
    v: Seq<char>,
    t: Seq<char>,
)
    requires
        !targets.contains(t),
    ensures
        insert_targets(m, targets, v).contains_key(t) == m.contains_key(t),
        m.contains_key(t) ==> insert_targets(m, targets, v)[t] == m[t],
    decreases targets.len(),
{
    if targets.len() > 0 {
        assert(targets[targets.len() - 1] != t);
        assert forall|i: int| 0 <= i < targets.drop_last().len() implies targets.drop_last()[i]
            != t by {
            assert(targets.drop_last()[i] == targets[i]);
        }
        assert(!targets.drop_last().contains(t));
        lemma_insert_targets_out(m, targets.drop_last(), v, t);
    }
}

proof fn lemma_insert_targets_alike(
    m: Map<Seq<char>, Seq<char>>,
    targets: Seq<Seq<char>>,
    v: Seq<char>,
    t1: Seq<char>,
    t2: Seq<char>,
)
    requires
        bound_alike(m, t1, t2),
        targets.contains(t1) <==> targets.contains(t2),
    ensures
        bound_alike(insert_targets(m, targets, v), t1, t2),
{
    if targets.contains(t1) {
        lemma_insert_targets_in(m, targets, v, t1);
        lemma_insert_targets_in(m, targets, v, t2);
    } else {
        lemma_insert_targets_out(m, targets, v, t1);
        lemma_insert_targets_out(m, targets, v, t2);
    }
}

proof fn lemma_group_targets_alike(g: GroupsModel, id: Seq<char>, t1: Seq<char>, t2: Seq<char>)
    requires
        co_grouped(g, t1, t2),
    ensures
        group_targets(g, id).contains(t1) <==> group_targets(g, id).contains(t2),
    decreases g.len(),
{
    if g.len() > 0 {
        if g[0].0 == id {
            assert(g[0].1.contains(t1) <==> g[0].1.contains(t2));
        } else {
            assert forall|i: int| 0 <= i < g.drop_first().len() implies ((
            #[trigger] g.drop_first()[i]).1.contains(t1) <==> g.drop_first()[i].1.contains(
                t2,
            )) by {
                assert(g.drop_first()[i] == g[i + 1]);
            }
            lemma_group_targets_alike(g.drop_first(), id, t1, t2);
        }
    }
}

proof fn lemma_fan_out_params_alike(
    pg: GroupsModel,
    response: Seq<(Seq<char>, Seq<char>)>,
    m: Map<Seq<char>, Seq<char>>,
    t1: Seq<char>,
    t2: Seq<char>,
)
    requires
        bound_alike(m, t1, t2),
        co_grouped(pg, t1, t2),
    ensures
        bound_alike(fan_out_params_spec(pg, response, m), t1, t2),
    decreases response.len(),
{
    if response.len() > 0 {
        lemma_fan_out_params_alike(pg, response.drop_last(), m, t1, t2);
        lemma_group_targets_alike(pg, response.last().0, t1, t2);
        lemma_insert_targets_alike(
            fan_out_params_spec(pg, response.drop_last(), m),
            group_targets(pg, response.last().0),
            response.last().1,
            t1,
            t2,
        );
    }
}

proof fn lemma_apply_secrets_alike(
    sg: GroupsModel,
    outcomes: Seq<OutcomeModel>,
    m: Map<Seq<char>, Seq<char>>,
    t1: Seq<char>,
    t2: Seq<char>,
)
    requires
        bound_alike(m, t1, t2),
        co_grouped(sg, t1, t2),
    ensures
        apply_secrets_spec(sg, outcomes, m) matches Ok(res) ==> bound_alike(res, t1, t2),
    decreases sg.len(),
{
    if sg.len() > 0 {
        match parse_id_spec(sg[0].0) {
            Err(_) => {},
            Ok(idm) => match outcomes[0] {
                OutcomeModel::TransportFailed(_) => {},
                OutcomeModel::Fetched(payload_opt) => match payload_opt {
                    None => {},
                    Some(payload) => match secret_value_spec(idm.json_pointer, payload) {
                        None => {},
                        Some(v) => {
                            assert(sg[0].1.contains(t1) <==> sg[0].1.contains(t2));
                            lemma_insert_targets_alike(m, sg[0].1, v, t1, t2);
                            assert forall|i: int| 0 <= i < sg.drop_first().len() implies ((
                            #[trigger] sg.drop_first()[i]).1.contains(t1)
                                <==> sg.drop_first()[i].1.contains(t2)) by {
                                assert(sg.drop_first()[i] == sg[i + 1]);
                            }
                            lemma_apply_secrets_alike(
                                sg.drop_first(),
                                outcomes.drop_first(),
                                insert_targets(m, sg[0].1, v),
                                t1,
                                t2,
                            );
                        },
                    },
                },
            },
        }
    }
}

/// Fan-out: two target keys that resolve through the same identifiers —
/// every group lists both of them or neither — come out of a successful
/// resolution pass bound alike: present together and, when present, with
/// the identical resolved value.
pub proof fn lemma_fan_out_same_value(
    pg: GroupsModel,
    sg: GroupsModel,
    response: Seq<(Seq<char>, Seq<char>)>,
    outcomes: Seq<OutcomeModel>,
    t1: Seq<char>,
    t2: Seq<char>,
)
    requires
        co_grouped(pg, t1, t2),
        co_grouped(sg, t1, t2),
    ensures
        resolve_spec(pg, sg, response, outcomes) matches Ok(res) ==> bound_alike(res, t1, t2),
{
    let empty = Map::<Seq<char>, Seq<char>>::empty();
    assert(bound_alike(empty, t1, t2));
    lemma_fan_out_params_alike(pg, response, empty, t1, t2);
    lemma_apply_secrets_alike(sg, outcomes, fan_out_params_spec(pg, response, empty), t1, t2);
}

/// Fan-out, from a classified snapshot: over a snapshot with distinct keys,
/// two target keys filed in one parameter group, and targeted by no secret
/// indirection, come out of every successful resolution pass bound alike:
/// present together and, when present, with the identical resolved value.
pub proof fn lemma_classified_param_fan_out(
    env: Seq<(Seq<char>, Seq<char>)>,
    response: Seq<(Seq<char>, Seq<char>)>,
    outcomes: Seq<OutcomeModel>,
    i: int,
    t1: Seq<char>,
    t2: Seq<char>,
)
    requires
        crate::groups::distinct_keys(env),
        0 <= i < classify_spec(env).0.len(),
        classify_spec(env).0[i].1.contains(t1),
        classify_spec(env).0[i].1.contains(t2),
        forall|j: int|
            0 <= j < classify_spec(env).1.len() ==> !(#[trigger] classify_spec(
                env,
            ).1[j]).1.contains(t1) && !classify_spec(env).1[j].1.contains(t2),
    ensures
        resolve_spec(classify_spec(env).0, classify_spec(env).1, response, outcomes) matches Ok(
            res,
        ) ==> bound_alike(res, t1, t2),
{
    let pg = classify_spec(env).0;
    let sg = classify_spec(env).1;
    crate::groups::lemma_classify_sourced(env);
    crate::groups::lemma_sourced_targets_unique(pg, env, crate::groups::param_marker());
    assert forall|gi: int| 0 <= gi < pg.len() implies ((#[trigger] pg[gi]).1.contains(t1)
        <==> pg[gi].1.contains(t2)) by {
        if pg[gi].1.contains(t1) {
            assert(gi == i);
        }
        if pg[gi].1.contains(t2) {
            assert(gi == i);
        }
    }
    lemma_fan_out_same_value(pg, sg, response, outcomes, t1, t2);
}

/// Fan-out, from a classified snapshot: over a snapshot with distinct keys,
/// two target keys filed in one secret group, and targeted by no parameter
/// indirection, come out of every successful resolution pass bound alike.
pub proof fn lemma_classified_secret_fan_out(
    env: Seq<(Seq<char>, Seq<char>)>,
    response: Seq<(Seq<char>, Seq<char>)>,
    outcomes: Seq<OutcomeModel>,
    i: int,
    t1: Seq<char>,
    t2: Seq<char>,
)
    requires
        crate::groups::distinct_keys(env),
        0 <= i < classify_spec(env).1.len(),
        classify_spec(env).1[i].1.contains(t1),
        classify_spec(env).1[i].1.contains(t2),
        forall|j: int|
            0 <= j < classify_spec(env).0.len() ==> !(#[trigger] classify_spec(
                env,
            ).0[j]).1.contains(t1) && !classify_spec(env).0[j].1.contains(t2),
    ensures
        resolve_spec(classify_spec(env).0, classify_spec(env).1, response, outcomes) matches Ok(
            res,
        ) ==> bound_alike(res, t1, t2),
{
    let pg = classify_spec(env).0;
    let sg = classify_spec(env).1;
    crate::groups::lemma_classify_sourced(env);
    crate::groups::lemma_sourced_targets_unique(sg, env, crate::groups::secret_marker());
    assert forall|gi: int| 0 <= gi < sg.len() implies ((#[trigger] sg[gi]).1.contains(t1)
        <==> sg[gi].1.contains(t2)) by {
        if sg[gi].1.contains(t1) {
            assert(gi == i);
        }
        if sg[gi].1.contains(t2) {
            assert(gi == i);
        }
    }
    lemma_fan_out_same_value(pg, sg, response, outcomes, t1, t2);
}

/// Fail-fast, for the whole resolution pass: when any secret fetch failed,
/// the pass returns an error and produces no partial map.
pub proof fn lemma_resolve_fail_fast(
    pg: GroupsModel,
    sg: GroupsModel,
    response: Seq<(Seq<char>, Seq<char>)>,
    outcomes: Seq<OutcomeModel>,
    i: int,
)
    requires
        0 <= i < sg.len(),
        outcomes.len() == sg.len(),
        outcome_is_failure(outcomes[i]),
    ensures
        resolve_spec(pg, sg, response, outcomes) is Err,
{
    lemma_apply_secrets_fail_fast(sg, outcomes, fan_out_params_spec(pg, response, Map::empty()), i);
}

} // verus!
