use vstd::prelude::*;
use crate::base62::{encode, lemma_encode_injective, spec_encode};
use crate::redis_conn::{after_set, Command, CommandView, Reply, ReplyView, ID_LIST, URL_ID};

verus! {

/// The form that a client posts to have a URL shortened.
#[derive(Debug, PartialEq, Eq)]
pub struct UrlForm {
    pub url: String,
}

/// The answer to a URL whose text does not parse.
pub const INVALID_URL_MSG: &'static str = "Invalid URL format! Try again";

/// The answer to a URL that did not answer a request.
pub const UNREACHABLE_MSG: &'static str = "URL not reachable! Try again";

/// The answer when the id counter is too close to its limit to hand out more.
pub const CAPACITY_MSG: &'static str = "ID at max capacity. Please Wait Until Other ids free up";

/// The text put in front of a short code to make the short link.
pub const SHORT_LINK_PREFIX: &'static str = "http://us.ex/";

/// The body of the answer to an unknown short code.
pub const NOT_FOUND_MSG: &'static str = "Short URL not found";

/// The largest id counter value from which a fresh id is still drawn.
pub const MAX_FRESH_ID: u64 = 0xffff_ffff_ffff_fffa;

/// `c` has Unicode's White_Space property, the whitespace of `str::trim`.
pub open spec fn is_white_space(c: char) -> bool {
    let v = c as u32;
    ||| 0x9 <= v <= 0xD
    ||| v == 0x20
    ||| v == 0x85
    ||| v == 0xA0
    ||| v == 0x1680
    ||| 0x2000 <= v <= 0x200A
    ||| v == 0x2028
    ||| v == 0x2029
    ||| v == 0x202F
    ||| v == 0x205F
    ||| v == 0x3000
}

/// Every character of `s` is whitespace.
pub open spec fn all_white_space(s: Seq<char>) -> bool {
    forall|i: int| 0 <= i < s.len() ==> #[trigger] is_white_space(s[i])
}

/// `s` without its leading whitespace.
pub open spec fn trim_start(s: Seq<char>) -> Seq<char>
    decreases s.len(),
{
    if s.len() > 0 && is_white_space(s[0]) {
        trim_start(s.drop_first())
    } else {
        s
    }
}

/// `s` without its trailing whitespace.
pub open spec fn trim_end(s: Seq<char>) -> Seq<char>
    decreases s.len(),
{
    if s.len() > 0 && is_white_space(s.last()) {
        trim_end(s.drop_last())
    } else {
        s
    }
}

/// `s` without its leading and trailing whitespace.
pub open spec fn spec_trim(s: Seq<char>) -> Seq<char> {
    trim_end(trim_start(s))
}

/// Whether `reqwest::Url::parse` accepts a string with the characters `s`.
pub uninterp spec fn spec_url_parses(s: Seq<char>) -> bool;

/// Calls `str::trim`: the result is `s` without its leading and trailing
/// characters that have Unicode's White_Space property.
#[verifier::external_body]
fn trim_str(s: &str) -> (res: &str)
    ensures
        res@ == spec_trim(s@),
{
    s.trim()
}

/// Calls `reqwest::Url::parse` (the `url` crate's parser of absolute URLs)
/// and reports whether it returned `Ok`; which strings it accepts is left to
/// the name `spec_url_parses`.
#[verifier::external_body]
fn url_parses(s: &str) -> (ok: bool)
    ensures
        ok == spec_url_parses(s@),
{
    reqwest::Url::parse(s).is_ok()
}

/// The short link of a short code.
pub open spec fn short_link(code: Seq<char>) -> Seq<char> {
    SHORT_LINK_PREFIX@ + code
}

/// The stages of shortening one URL.
#[derive(Debug, PartialEq, Eq)]
pub enum Phase {
    /// Waiting to learn whether the URL answers a request.
    AwaitReach,
    /// Waiting for the code already stored for the URL, if any.
    AwaitLookup,
    /// The URL has the code; waiting for its lifetime to be renewed.
    AwaitExpire(String),
    /// Waiting for a code from the free list, if any.
    AwaitFree,
    /// Waiting for the id counter.
    AwaitCounter,
    /// A fresh code was made; waiting for the counter to be incremented.
    AwaitIncr(String),
    /// Waiting for the code to be mapped to the URL.
    StoreCode(String),
    /// Waiting for the URL to be mapped to the code.
    StoreUrl(String),
    /// Done; the message is the answer.
    Finished(String),
}

/// A stage with its strings taken as character sequences.
pub enum PhaseView {
    AwaitReach,
    AwaitLookup,
    AwaitExpire(Seq<char>),
    AwaitFree,
    AwaitCounter,
    AwaitIncr(Seq<char>),
    StoreCode(Seq<char>),
    StoreUrl(Seq<char>),
    Finished(Seq<char>),
}

impl View for Phase {
    type V = PhaseView;

    open spec fn view(&self) -> PhaseView {
        match self {
            Phase::AwaitReach => PhaseView::AwaitReach,
            Phase::AwaitLookup => PhaseView::AwaitLookup,
            Phase::AwaitExpire(c) => PhaseView::AwaitExpire(c@),
            Phase::AwaitFree => PhaseView::AwaitFree,
            Phase::AwaitCounter => PhaseView::AwaitCounter,
            Phase::AwaitIncr(c) => PhaseView::AwaitIncr(c@),
            Phase::StoreCode(c) => PhaseView::StoreCode(c@),
            Phase::StoreUrl(c) => PhaseView::StoreUrl(c@),
            Phase::Finished(m) => PhaseView::Finished(m@),
        }
    }
}

/// What the shortening of a URL asks for next.
#[derive(Debug, PartialEq, Eq)]
pub enum Step {
    /// Send a request to the URL and report whether it answered.
    Probe(String),
    /// Run a command on the store and report its reply.
    Run(Command),
    /// Answer the client with this message.
    Respond(String),
}

/// A step with its strings taken as character sequences.
pub enum StepView {
    Probe(Seq<char>),
    Run(CommandView),
    Respond(Seq<char>),
}

impl View for Step {
    type V = StepView;

    open spec fn view(&self) -> StepView {
        match self {
            Step::Probe(u) => StepView::Probe(u@),
            Step::Run(c) => StepView::Run(c@),
            Step::Respond(m) => StepView::Respond(m@),
        }
    }
}

/// The state of shortening one URL, seen abstractly.
pub struct ShortenView {
    pub phase: PhaseView,
    pub url: Seq<char>,
    pub ttl: i64,
}

/// The state right after the URL text was trimmed to `url` and parsed.
pub open spec fn shorten_start(url: Seq<char>, parses: bool, ttl: i64) -> ShortenView {
    ShortenView {
        phase: if parses {
            PhaseView::AwaitReach
        } else {
            PhaseView::Finished(INVALID_URL_MSG@)
        },
        url,
        ttl,
    }
}

/// The stage that follows `p` once `r` came back; a reply that `p` does not
/// wait for leaves it where it is.
pub open spec fn phase_next(p: PhaseView, r: ReplyView) -> PhaseView {
    match p {
        PhaseView::AwaitReach => match r {
            ReplyView::Reachable(ok) => if ok {
                PhaseView::AwaitLookup
            } else {
                PhaseView::Finished(UNREACHABLE_MSG@)
            },
            _ => p,
        },
        PhaseView::AwaitLookup => match r {
            ReplyView::Value(Some(code)) => PhaseView::AwaitExpire(code),
            ReplyView::Value(None) => PhaseView::AwaitFree,
            _ => p,
        },
        PhaseView::AwaitExpire(code) => if r is Done {
            PhaseView::Finished(short_link(code))
        } else {
            p
        },
        PhaseView::AwaitFree => match r {
            ReplyView::Value(Some(code)) => PhaseView::StoreCode(code),
            ReplyView::Value(None) => PhaseView::AwaitCounter,
            _ => p,
        },
        PhaseView::AwaitCounter => match r {
            ReplyView::Counter(id) => if id > MAX_FRESH_ID {
                PhaseView::Finished(CAPACITY_MSG@)
            } else {
                PhaseView::AwaitIncr(spec_encode(id as nat))
            },
            _ => p,
        },
        PhaseView::AwaitIncr(code) => if r is Done {
            PhaseView::StoreCode(code)
        } else {
            p
        },
        PhaseView::StoreCode(code) => if r is Done {
            PhaseView::StoreUrl(code)
        } else {
            p
        },
        PhaseView::StoreUrl(code) => if r is Done {
            PhaseView::Finished(short_link(code))
        } else {
            p
        },
        PhaseView::Finished(_) => p,
    }
}

/// The state that follows `s` once `r` came back: only the stage moves.
pub open spec fn shorten_next(s: ShortenView, r: ReplyView) -> ShortenView {
    ShortenView { phase: phase_next(s.phase, r), ..s }
}

/// The step that state `s` waits on.
pub open spec fn shorten_pending(s: ShortenView) -> StepView {
    match s.phase {
        PhaseView::AwaitReach => StepView::Probe(s.url),
        PhaseView::AwaitLookup => StepView::Run(CommandView::Get { key: s.url }),
        PhaseView::AwaitExpire(_) => StepView::Run(CommandView::Expire { key: s.url, ttl: s.ttl }),
        PhaseView::AwaitFree => StepView::Run(CommandView::LPop { key: ID_LIST@ }),
        PhaseView::AwaitCounter => StepView::Run(CommandView::GetNumber { key: URL_ID@ }),
        PhaseView::AwaitIncr(_) => StepView::Run(CommandView::Incr { key: URL_ID@ }),
        PhaseView::StoreCode(code) => StepView::Run(
            CommandView::SetEx { key: code, value: s.url, ttl: s.ttl },
        ),
        PhaseView::StoreUrl(code) => StepView::Run(
            CommandView::SetEx { key: s.url, value: code, ttl: s.ttl },
        ),
        PhaseView::Finished(msg) => StepView::Respond(msg),
    }
}

/// The shortening of one URL: reuse the code the URL already has and renew
/// it, else take an expired code from the free list, else make a fresh code
/// from the id counter; store the code both ways with a lifetime and answer
/// with the short link.
#[derive(Debug)]
pub struct Shorten {
    phase: Phase,
    url: String,
    ttl: i64,
}

impl View for Shorten {
    type V = ShortenView;

    closed spec fn view(&self) -> ShortenView {
        ShortenView { phase: self.phase@, url: self.url@, ttl: self.ttl }
    }
}

/// Starts shortening the URL of `form`, trimmed, whose entries live `ttl`
/// seconds.
pub fn process_url(form: &UrlForm, ttl: i64) -> (s: Shorten)
    ensures
        s@ == shorten_start(
            spec_trim(form.url@),
            spec_url_parses(spec_trim(form.url@)),
            ttl,
        ),
{
    let url = trim_str(form.url.as_str());
    let parses = url_parses(url);
    Shorten::from_parsed(String::from_str(url), parses, ttl)
}

impl Shorten {
    /// Starts shortening `url`, of which `parses` says whether it parsed as
    /// a URL, with entries that live `ttl` seconds.
    pub fn from_parsed(url: String, parses: bool, ttl: i64) -> (s: Shorten)
        ensures
            s@ == shorten_start(url@, parses, ttl),
    {
        let phase = if parses {
            Phase::AwaitReach
        } else {
            Phase::Finished(String::from_str(INVALID_URL_MSG))
        };
        Shorten { phase, url, ttl }
    }

    /// The URL being shortened, trimmed.
    pub fn url(&self) -> (u: &String)
        ensures
            u@ == self@.url,
    {
        &self.url
    }

    /// The step that the shortening waits on.
    pub fn pending(&self) -> (step: Step)
        ensures
            step@ == shorten_pending(self@),
    {
        match &self.phase {
            Phase::AwaitReach => Step::Probe(self.url.clone()),
            Phase::AwaitLookup => Step::Run(Command::Get { key: self.url.clone() }),
            Phase::AwaitExpire(_) => Step::Run(
                Command::Expire { key: self.url.clone(), ttl: self.ttl },
            ),
            Phase::AwaitFree => Step::Run(Command::LPop { key: String::from_str(ID_LIST) }),
            Phase::AwaitCounter => Step::Run(Command::GetNumber { key: String::from_str(URL_ID) }),
            Phase::AwaitIncr(_) => Step::Run(Command::Incr { key: String::from_str(URL_ID) }),
            Phase::StoreCode(code) => Step::Run(
                Command::SetEx { key: code.clone(), value: self.url.clone(), ttl: self.ttl },
            ),
            Phase::StoreUrl(code) => Step::Run(
                Command::SetEx { key: self.url.clone(), value: code.clone(), ttl: self.ttl },
            ),
            Phase::Finished(msg) => Step::Respond(msg.clone()),
        }
    }

    /// Takes in the reply to the pending step.
    pub fn advance(&mut self, reply: Reply)
        ensures
            final(self)@ == shorten_next(old(self)@, reply@),
    {
        let next: Option<Phase> = match &self.phase {
            Phase::AwaitReach => match reply {
                Reply::Reachable(ok) => if ok {
                    Some(Phase::AwaitLookup)
                } else {
                    Some(Phase::Finished(String::from_str(UNREACHABLE_MSG)))
                },
                _ => None,
            },
            Phase::AwaitLookup => match reply {
                Reply::Value(Some(code)) => Some(Phase::AwaitExpire(code)),
                Reply::Value(None) => Some(Phase::AwaitFree),
                _ => None,
            },
            Phase::AwaitExpire(code) => match reply {
                Reply::Done => Some(Phase::Finished(link_of(code))),
                _ => None,
            },
            Phase::AwaitFree => match reply {
                Reply::Value(Some(code)) => Some(Phase::StoreCode(code)),
                Reply::Value(None) => Some(Phase::AwaitCounter),
                _ => None,
            },
            Phase::AwaitCounter => match reply {
                Reply::Counter(id) => if id > MAX_FRESH_ID {
                    Some(Phase::Finished(String::from_str(CAPACITY_MSG)))
                } else {
                    Some(Phase::AwaitIncr(encode(id)))
                },
                _ => None,
            },
            Phase::AwaitIncr(code) => match reply {
                Reply::Done => Some(Phase::StoreCode(code.clone())),
                _ => None,
            },
            Phase::StoreCode(code) => match reply {
                Reply::Done => Some(Phase::StoreUrl(code.clone())),
                _ => None,
            },
            Phase::StoreUrl(code) => match reply {
                Reply::Done => Some(Phase::Finished(link_of(code))),
                _ => None,
            },
            Phase::Finished(_) => None,
        };
        if let Some(p) = next {
            self.phase = p;
        }
    }
}

/// Builds the short link of `code`.
pub fn link_of(code: &String) -> (link: String)
    ensures
        link@ == short_link(code@),
{
    let mut link = String::from_str(SHORT_LINK_PREFIX);
    link.append(code.as_str());
    link
}

/// The answer to a request for a short code.
#[derive(Debug, PartialEq, Eq)]
pub enum Redirect {
    /// Send the client on to this URL, temporarily.
    Temporary(String),
    /// Nothing is stored under the code; the body of the answer.
    NotFound(String),
}

/// Decides the answer to a request for a short code from what the store
/// holds under it: the stored URL if any, else not found.
pub fn short_url_redirect(long_url: Option<String>) -> (r: Redirect)
    ensures
        match long_url {
            Some(u) => r matches Redirect::Temporary(loc) && loc@ == u@,
            None => r matches Redirect::NotFound(body) && body@ == NOT_FOUND_MSG@,
        },
{
    match long_url {
        Some(url) => Redirect::Temporary(url),
        None => Redirect::NotFound(String::from_str(NOT_FOUND_MSG)),
    }
}

/// A URL whose text does not parse is answered at once as invalid; one that
/// parses is first checked for reachability, and an unreachable one is
/// answered as such; a reachable one is looked up in the store.
pub proof fn lemma_start(url: Seq<char>, parses: bool, reachable: bool, ttl: i64)
    ensures
        ({
            let s = shorten_start(url, parses, ttl);
            &&& !parses ==> shorten_pending(s) == StepView::Respond(INVALID_URL_MSG@)
            &&& parses ==> shorten_pending(s) == StepView::Probe(url)
            &&& parses && !reachable ==> shorten_pending(
                shorten_next(s, ReplyView::Reachable(false)),
            ) == StepView::Respond(UNREACHABLE_MSG@)
            &&& parses && reachable ==> shorten_pending(
                shorten_next(s, ReplyView::Reachable(true)),
            ) == StepView::Run(CommandView::Get { key: url })
        }),
{
}

/// A URL that already has a code keeps it: its lifetime is renewed and the
/// answer is the short link of that code; nothing else is written.
pub proof fn lemma_known_url_keeps_code(s: ShortenView, code: Seq<char>)
    requires
        s.phase is AwaitLookup,
    ensures
        ({
            let s1 = shorten_next(s, ReplyView::Value(Some(code)));
            let s2 = shorten_next(s1, ReplyView::Done);
            &&& shorten_pending(s1) == StepView::Run(
                CommandView::Expire { key: s.url, ttl: s.ttl },
            )
            &&& shorten_pending(s2) == StepView::Respond(short_link(code))
        }),
{
}

/// A URL without a code takes the first code of the free list when there
/// is one, stores it both ways, and is answered with its short link.
pub proof fn lemma_free_code_reused(s: ShortenView, code: Seq<char>)
    requires
        s.phase is AwaitLookup,
    ensures
        ({
            let s1 = shorten_next(s, ReplyView::Value(None));
            let s2 = shorten_next(s1, ReplyView::Value(Some(code)));
            let s3 = shorten_next(s2, ReplyView::Done);
            let s4 = shorten_next(s3, ReplyView::Done);
            &&& shorten_pending(s1) == StepView::Run(CommandView::LPop { key: ID_LIST@ })
            &&& shorten_pending(s2) == StepView::Run(
                CommandView::SetEx { key: code, value: s.url, ttl: s.ttl },
            )
            &&& shorten_pending(s3) == StepView::Run(
                CommandView::SetEx { key: s.url, value: code, ttl: s.ttl },
            )
            &&& shorten_pending(s4) == StepView::Respond(short_link(code))
        }),
{
}

/// With an empty free list, a fresh code is the base-62 encoding of the id
/// counter, which is incremented before the code is stored both ways; the
/// answer is its short link. Past the counter's limit nothing is written
/// and the answer says so.
pub proof fn lemma_fresh_code(s: ShortenView, id: u64)
    requires
        s.phase is AwaitFree,
    ensures
        ({
            let s1 = shorten_next(s, ReplyView::Value(None));
            let s2 = shorten_next(s1, ReplyView::Counter(id));
            let s3 = shorten_next(s2, ReplyView::Done);
            let s4 = shorten_next(s3, ReplyView::Done);
            let s5 = shorten_next(s4, ReplyView::Done);
            let code = spec_encode(id as nat);
            &&& shorten_pending(s1) == StepView::Run(CommandView::GetNumber { key: URL_ID@ })
            &&& id > MAX_FRESH_ID ==> shorten_pending(s2) == StepView::Respond(CAPACITY_MSG@)
            &&& id <= MAX_FRESH_ID ==> {
                &&& shorten_pending(s2) == StepView::Run(CommandView::Incr { key: URL_ID@ })
                &&& shorten_pending(s3) == StepView::Run(
                    CommandView::SetEx { key: code, value: s.url, ttl: s.ttl },
                )
                &&& shorten_pending(s4) == StepView::Run(
                    CommandView::SetEx { key: s.url, value: code, ttl: s.ttl },
                )
                &&& shorten_pending(s5) == StepView::Respond(short_link(code))
            }
        }),
{
}

/// The answers and the link prefix are the texts the clients see, and a
/// fresh id is refused only within 5 of the counter's largest value.
pub proof fn lemma_answer_texts()
    ensures
        SHORT_LINK_PREFIX@ == "http://us.ex/"@,
        INVALID_URL_MSG@ == "Invalid URL format! Try again"@,
        UNREACHABLE_MSG@ == "URL not reachable! Try again"@,
        CAPACITY_MSG@ == "ID at max capacity. Please Wait Until Other ids free up"@,
        NOT_FOUND_MSG@ == "Short URL not found"@,
        MAX_FRESH_ID == u64::MAX - 5,
{
}

/// The short link of any code is the prefix `http://us.ex/` followed by the
/// code itself, unchanged: stripping the prefix gives the code back, and
/// different codes give different links.
pub proof fn lemma_short_link_exact(code: Seq<char>, other: Seq<char>)
    ensures
        short_link(code).len() == SHORT_LINK_PREFIX@.len() + code.len(),
        short_link(code).take(SHORT_LINK_PREFIX@.len() as int) == SHORT_LINK_PREFIX@,
        short_link(code).skip(SHORT_LINK_PREFIX@.len() as int) == code,
        forall|i: int| 0 <= i < code.len() ==> #[trigger] short_link(code)[
            SHORT_LINK_PREFIX@.len() + i] == code[i],
        short_link(code) == short_link(other) ==> code == other,
{
    let n = SHORT_LINK_PREFIX@.len() as int;
    assert(short_link(code).take(n) =~= SHORT_LINK_PREFIX@);
    assert(short_link(code).skip(n) =~= code);
    if short_link(code) == short_link(other) {
        assert(short_link(other).skip(n) =~= other);
    }
}

/// A short link leads back to its URL: once a code is chosen for a URL
/// (from the free list or from the counter), the two writes that follow,
/// applied to any store as Redis documents `SET`, leave the URL under the
/// code and the code under the URL before the short link is answered; a
/// lookup of the code then finds the URL, and `short_url_redirect` sends the
/// client there.
pub proof fn lemma_short_link_leads_back(
    s: ShortenView,
    code: Seq<char>,
    store: Map<Seq<char>, Seq<char>>,
)
    requires
        s.phase == PhaseView::StoreCode(code),
        code != s.url,
    ensures
        ({
            let st1 = after_set(store, shorten_pending(s)->Run_0);
            let s1 = shorten_next(s, ReplyView::Done);
            let st2 = after_set(st1, shorten_pending(s1)->Run_0);
            let s2 = shorten_next(s1, ReplyView::Done);
            &&& shorten_pending(s2) == StepView::Respond(short_link(code))
            &&& shorten_pending(s2)->Respond_0.skip(SHORT_LINK_PREFIX@.len() as int)
                == st2[s.url]
            &&& st2.dom().contains(code)
            &&& st2[code] == s.url
            &&& st2.dom().contains(s.url)
            &&& st2[s.url] == code
        }),
{
}

/// Two different counter values never give the same fresh code.
pub proof fn lemma_fresh_codes_distinct(s: ShortenView, t: ShortenView, a: u64, b: u64)
    requires
        s.phase is AwaitCounter,
        t.phase is AwaitCounter,
        a <= MAX_FRESH_ID,
        b <= MAX_FRESH_ID,
        a != b,
    ensures
        ({
            let sa = shorten_next(s, ReplyView::Counter(a));
            let tb = shorten_next(t, ReplyView::Counter(b));
            sa.phase->AwaitIncr_0 != tb.phase->AwaitIncr_0
        }),
{
    if spec_encode(a as nat) == spec_encode(b as nat) {
        lemma_encode_injective(a as nat, b as nat);
    }
}

/// The URL and the lifetime never change while a URL is shortened, and an
/// answered request stays answered whatever comes back.
pub proof fn lemma_next_keeps(s: ShortenView, r: ReplyView)
    ensures
        shorten_next(s, r).url == s.url,
        shorten_next(s, r).ttl == s.ttl,
        s.phase is Finished ==> shorten_next(s, r) == s,
{
}

/// Leading whitespace in front of text that starts with a non-whitespace
/// character is all that `trim_start` drops.
proof fn lemma_trim_start_prefix(w: Seq<char>, s: Seq<char>)
    requires
        all_white_space(w),
    ensures
        trim_start(w + s) == trim_start(s),
    decreases w.len(),
{
    if w.len() > 0 {
        assert(is_white_space(w[0]));
        assert((w + s)[0] == w[0]);
        assert((w + s).drop_first() =~= w.drop_first() + s);
        assert(all_white_space(w.drop_first())) by {
            assert forall|i: int| 0 <= i < w.drop_first().len() implies #[trigger] is_white_space(
                w.drop_first()[i],
            ) by {
                assert(w.drop_first()[i] == w[i + 1]);
            }
        }
        lemma_trim_start_prefix(w.drop_first(), s);
    } else {
        assert(w + s =~= s);
    }
}

/// Trailing whitespace behind text is all that `trim_end` drops.
proof fn lemma_trim_end_suffix(s: Seq<char>, w: Seq<char>)
    requires
        all_white_space(w),
    ensures
        trim_end(s + w) == trim_end(s),
    decreases w.len(),
{
    if w.len() > 0 {
        assert(is_white_space(w[w.len() - 1]));
        assert((s + w).last() == w.last());
        assert((s + w).drop_last() =~= s + w.drop_last());
        assert(all_white_space(w.drop_last())) by {
            assert forall|i: int| 0 <= i < w.drop_last().len() implies #[trigger] is_white_space(
                w.drop_last()[i],
            ) by {
                assert(w.drop_last()[i] == w[i]);
            }
        }
        lemma_trim_end_suffix(s, w.drop_last());
    } else {
        assert(s + w =~= s);
    }
}

/// Dropping leading whitespace from `s + w` either drops it from `s` and
/// keeps `w`, or, when `s` is all whitespace, leaves only whitespace.
proof fn lemma_trim_start_append(s: Seq<char>, w: Seq<char>)
    requires
        all_white_space(w),
    ensures
        all_white_space(s) ==> all_white_space(trim_start(s + w)),
        !all_white_space(s) ==> trim_start(s + w) == trim_start(s) + w,
    decreases s.len(),
{
    if s.len() == 0 {
        assert(s + w =~= w);
        lemma_trim_start_all_white(w);
    } else {
        assert((s + w)[0] == s[0]);
        assert((s + w).drop_first() =~= s.drop_first() + w);
        if is_white_space(s[0]) {
            lemma_trim_start_append(s.drop_first(), w);
            if all_white_space(s.drop_first()) {
                assert forall|i: int| 0 <= i < s.len() implies #[trigger] is_white_space(s[i]) by {
                    if i > 0 {
                        assert(s[i] == s.drop_first()[i - 1]);
                    }
                }
            } else {
                let k = choose|k: int|
                    0 <= k < s.drop_first().len() && !is_white_space(s.drop_first()[k]);
                assert(s[k + 1] == s.drop_first()[k]);
                assert(!is_white_space(s[k + 1]));
            }
        } else {
            assert(!is_white_space(s[0]));
        }
    }
}

/// A sequence of whitespace trims to whitespace (in fact to nothing).
proof fn lemma_trim_start_all_white(w: Seq<char>)
    requires
        all_white_space(w),
    ensures
        all_white_space(trim_start(w)),
    decreases w.len(),
{
    if w.len() > 0 {
        assert(is_white_space(w[0]));
        assert(all_white_space(w.drop_first())) by {
            assert forall|i: int| 0 <= i < w.drop_first().len() implies #[trigger] is_white_space(
                w.drop_first()[i],
            ) by {
                assert(w.drop_first()[i] == w[i + 1]);
            }
        }
        lemma_trim_start_all_white(w.drop_first());
    }
}

/// Trimming text that is all whitespace leaves nothing.
proof fn lemma_trim_end_all_white(w: Seq<char>)
    requires
        all_white_space(w),
    ensures
        trim_end(w).len() == 0,
    decreases w.len(),
{
    if w.len() > 0 {
        assert(is_white_space(w[w.len() - 1]));
        assert(all_white_space(w.drop_last())) by {
            assert forall|i: int| 0 <= i < w.drop_last().len() implies #[trigger] is_white_space(
                w.drop_last()[i],
            ) by {
                assert(w.drop_last()[i] == w[i]);
            }
        }
        lemma_trim_end_all_white(w.drop_last());
    }
}

/// Whitespace around a URL's text changes nothing: the text trims to the
/// same URL, so shortening starts from the same state.
pub proof fn lemma_surrounding_whitespace(w1: Seq<char>, s: Seq<char>, w2: Seq<char>, ttl: i64)
    requires
        all_white_space(w1),
        all_white_space(w2),
    ensures
        spec_trim(w1 + s + w2) == spec_trim(s),
        shorten_start(spec_trim(w1 + s + w2), spec_url_parses(spec_trim(w1 + s + w2)), ttl)
            == shorten_start(spec_trim(s), spec_url_parses(spec_trim(s)), ttl),
{
    assert(w1 + s + w2 =~= w1 + (s + w2));
    lemma_trim_start_prefix(w1, s + w2);
    lemma_trim_start_append(s, w2);
    if all_white_space(s) {
        lemma_trim_start_all_white(s);
        lemma_trim_end_all_white(trim_start(s + w2));
        lemma_trim_end_all_white(trim_start(s));
        assert(trim_end(trim_start(s + w2)) =~= trim_end(trim_start(s)));
    } else {
        lemma_trim_end_suffix(trim_start(s), w2);
    }
}

} // verus!
