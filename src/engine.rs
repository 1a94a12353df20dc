//! What the workers and the sink decide: how a request is built, when it is
//! tried again, which results are kept, how a kept result is written, and when
//! each stage stops.
use vstd::prelude::*;
use vstd::string::*;
use rand::seq::SliceRandom;
use crate::args::AppArgs;
use crate::context::{some_running, AppContext, EnumResult, WorkerStatus};
use crate::dict::alphanum;
use crate::text::{chars_of, opt_view, push_char, split_char, split_on, string_of, trim, trimmed, views};

verus! {

// ---------------------------------------------------------------- headers

/// `i` is the first `:` of `h`.
pub open spec fn first_colon_at(h: Seq<char>, i: int) -> bool {
    0 <= i < h.len() && h[i] == ':' && forall|j: int| 0 <= j < i ==> h[j] != ':'
}

/// A raw header line as a name and a value: split at the first `:`, both
/// sides trimmed; `None` when the line has no `:`.
pub open spec fn header_of(h: Seq<char>) -> Option<(Seq<char>, Seq<char>)> {
    if exists|i: int| first_colon_at(h, i) {
        let i = choose|i: int| first_colon_at(h, i);
        Some((trimmed(h.take(i)), trimmed(h.skip(i + 1))))
    } else {
        None
    }
}

/// The name and value pairs of the well-formed header lines, in order.
pub open spec fn configured_headers(hs: Seq<Seq<char>>) -> Seq<(Seq<char>, Seq<char>)>
    decreases hs.len(),
{
    if hs.len() == 0 {
        Seq::empty()
    } else {
        let prev = configured_headers(hs.drop_last());
        match header_of(hs.last()) {
            Some(p) => prev.push(p),
            None => prev,
        }
    }
}

/// The character sequences of a list of header pairs.
pub open spec fn pair_views(v: Seq<(String, String)>) -> Seq<(Seq<char>, Seq<char>)> {
    v.map_values(|p: (String, String)| (p.0@, p.1@))
}

/// Splits a raw header line at its first `:` and trims both sides; `None`
/// when there is no `:`.
pub fn parse_header(h: &str) -> (r: Option<(String, String)>)
    ensures
        r is None <==> header_of(h@) is None,
        r matches Some((name, value)) ==> header_of(h@) == Some((name@, value@)),
{
    let cs = chars_of(h);
    let mut i: usize = 0;
    while i < cs.len()
        invariant
            cs@ == h@,
            i <= cs@.len(),
            forall|j: int| 0 <= j < i ==> h@[j] != ':',
        decreases cs@.len() - i,
    {
        if cs[i] == ':' {
            assert(first_colon_at(h@, i as int));
            let ghost k = choose|k: int| first_colon_at(h@, k);
            assert(k == i as int) by {
                if k < i as int {
                    assert(h@[k] != ':');
                } else if k > i as int {
                    assert(h@[i as int] != ':');
                }
            }
            let key = string_of(&cs, 0, i);
            let value = string_of(&cs, i + 1, cs.len());
            assert(key@ =~= h@.take(i as int));
            assert(value@ =~= h@.skip(i as int + 1));
            let k2 = trim(key.as_str());
            let v2 = trim(value.as_str());
            let mut name = String::new();
            name.append(k2);
            let mut val = String::new();
            val.append(v2);
            assert(name@ =~= k2@);
            assert(val@ =~= v2@);
            return Some((name, val));
        }
        i += 1;
    }
    assert(!exists|k: int| first_colon_at(h@, k));
    None
}

/// The name and value pairs of the well-formed header lines, in order; lines
/// without a `:` are left out.
pub fn header_pairs(headers: &Vec<String>) -> (r: Vec<(String, String)>)
    ensures
        pair_views(r@) == configured_headers(views(headers@)),
{
    let ghost hs = views(headers@);
    let mut r: Vec<(String, String)> = Vec::new();
    let mut i: usize = 0;
    while i < headers.len()
        invariant
            hs == views(headers@),
            i <= headers@.len(),
            pair_views(r@) == configured_headers(hs.take(i as int)),
        decreases headers@.len() - i,
    {
        assert(hs.take(i as int + 1).drop_last() =~= hs.take(i as int));
        assert(hs[i as int] == headers@[i as int]@);
        let ghost old_r = r@;
        match parse_header(headers[i].as_str()) {
            Some(p) => {
                r.push(p);
                assert(pair_views(r@) =~= pair_views(old_r).push((p.0@, p.1@)));
            },
            None => {},
        }
        i += 1;
    }
    assert(hs.take(i as int) =~= hs);
    r
}

/// A header line without a `:` is dropped wherever it stands: the headers
/// sent are those of the other lines.
pub proof fn lemma_malformed_header_dropped(
    before: Seq<Seq<char>>,
    h: Seq<char>,
    after: Seq<Seq<char>>,
)
    requires
        forall|i: int| 0 <= i < h.len() ==> h[i] != ':',
    ensures
        configured_headers(before.push(h) + after) == configured_headers(before + after),
    decreases after.len(),
{
    assert(header_of(h) is None);
    if after.len() == 0 {
        assert(before.push(h) + after =~= before.push(h));
        assert(before.push(h).drop_last() =~= before);
        assert(before + after =~= before);
    } else {
        lemma_malformed_header_dropped(before, h, after.drop_last());
        assert((before.push(h) + after).drop_last() =~= before.push(h) + after.drop_last());
        assert((before + after).drop_last() =~= before + after.drop_last());
    }
}

// ---------------------------------------------------------------- requests

/// What a worker sends for one candidate.
#[derive(Debug)]
pub struct RequestPlan {
    pub url: String,
    pub method: String,
    pub headers: Vec<(String, String)>,
}

/// The headers of a request: a random user agent when one was drawn, the
/// configured headers, then the cookie.
pub open spec fn planned_headers(args: AppArgs, user_agent: Option<Seq<char>>) -> Seq<
    (Seq<char>, Seq<char>),
> {
    let ua: Seq<(Seq<char>, Seq<char>)> = match user_agent {
        Some(u) => seq![("User-Agent"@, u)],
        None => Seq::empty(),
    };
    let cookie: Seq<(Seq<char>, Seq<char>)> = match args.cookies {
        Some(c) => seq![("Cookie"@, c@)],
        None => Seq::empty(),
    };
    ua + configured_headers(views(args.headers@)) + cookie
}

/// Builds the request for `candidate`: the target with the candidate
/// appended, the configured method, and the headers of `planned_headers`.
/// `user_agent` is the agent drawn for this request, if any.
pub fn plan_request(args: &AppArgs, candidate: &str, user_agent: Option<String>) -> (r: RequestPlan)
    ensures
        r.url@ == args.target@ + candidate@,
        r.method@ == args.request_method@,
        pair_views(r.headers@) == planned_headers(
            *args,
            opt_view(user_agent),
        ),
{
    let mut url = args.target.clone();
    url.append(candidate);
    let method = args.request_method.clone();
    let mut headers: Vec<(String, String)> = Vec::new();
    let ghost ua_view: Option<Seq<char>> = opt_view(user_agent);
    match user_agent {
        Some(u) => {
            headers.push((String::from_str("User-Agent"), u));
        },
        None => {},
    }
    let configured = header_pairs(&args.headers);
    let ghost before = headers@;
    let mut i: usize = 0;
    while i < configured.len()
        invariant
            i <= configured@.len(),
            headers@ == before + configured@.take(i as int),
        decreases configured@.len() - i,
    {
        let p = (configured[i].0.clone(), configured[i].1.clone());
        headers.push(p);
        i += 1;
        assert(headers@ =~= before + configured@.take(i as int));
    }
    assert(configured@.take(i as int) =~= configured@);
    match &args.cookies {
        Some(c) => {
            headers.push((String::from_str("Cookie"), c.clone()));
        },
        None => {},
    }
    let r = RequestPlan { url, method, headers };
    assert(pair_views(r.headers@) =~= planned_headers(*args, ua_view));
    r
}

/// Relies on rand's `SliceRandom::choose` with the thread-local generator:
/// `None` for an empty list, else one of its entries.
#[verifier::external_body]
fn choose_user_agent(list: &Vec<String>) -> (r: Option<String>)
    ensures
        r is None <==> list@.len() == 0,
        r is Some ==> exists|i: int| 0 <= i < list@.len() && list@[i] == r->0,
{
    list.choose(&mut rand::thread_rng()).cloned()
}

/// Builds the request for `candidate`, drawing a user agent from the list
/// when random agents are asked for.
pub fn prepare_request(args: &AppArgs, candidate: &str) -> (r: RequestPlan)
    ensures
        r.url@ == args.target@ + candidate@,
        r.method@ == args.request_method@,
        !(args.random_user_agent && args.user_agent_list@.len() > 0) ==> pair_views(r.headers@)
            == planned_headers(*args, None),
        args.random_user_agent && args.user_agent_list@.len() > 0 ==> exists|i: int|
            0 <= i < args.user_agent_list@.len() && pair_views(r.headers@) == planned_headers(
                *args,
                Some(args.user_agent_list@[i]@),
            ),
{
    let ua = if args.random_user_agent {
        choose_user_agent(&args.user_agent_list)
    } else {
        None
    };
    plan_request(args, candidate, ua)
}

// ---------------------------------------------------------------- workers

/// What a worker does next.
#[derive(Debug, PartialEq, Eq)]
pub enum WorkerAction {
    /// Probe this candidate.
    Probe(String),
    /// Poll the queue again: the generator may still produce.
    Poll,
    /// The generator is done and the queue is empty: stop.
    Exit,
}

/// A worker's decision after a non-blocking receive from the task queue.
pub fn worker_step(task: Option<String>, builder_stopped: bool) -> (r: WorkerAction)
    ensures
        task is Some ==> r == WorkerAction::Probe(task->0),
        task is None && builder_stopped ==> r == WorkerAction::Exit,
        task is None && !builder_stopped ==> r == WorkerAction::Poll,
{
    match task {
        Some(t) => WorkerAction::Probe(t),
        None => if builder_stopped {
            WorkerAction::Exit
        } else {
            WorkerAction::Poll
        },
    }
}

/// What happens after some attempts at one request.
#[derive(Debug, PartialEq, Eq)]
pub enum RetryStep {
    /// Send the request (again).
    Send,
    /// The request got this status code: record it and stop.
    Record(u16),
    /// Every attempt failed: drop the candidate.
    GiveUp,
}

/// The retry decision: `attempts` requests were sent so far, `last` is the
/// status code of the last one if it got a response.
pub fn retry_step(attempts: usize, retries: usize, last: Option<u16>) -> (r: RetryStep)
    ensures
        last is Some ==> r == RetryStep::Record(last->0),
        last is None && attempts < retries ==> r == RetryStep::Send,
        last is None && attempts >= retries ==> r == RetryStep::GiveUp,
{
    match last {
        Some(code) => RetryStep::Record(code),
        None => if attempts < retries {
            RetryStep::Send
        } else {
            RetryStep::GiveUp
        },
    }
}

// ---------------------------------------------------------------- results

/// `needle` occurs in `hay`.
pub open spec fn contains_sub(hay: Seq<char>, needle: Seq<char>) -> bool {
    exists|i: int| 0 <= i <= hay.len() - needle.len() && #[trigger] hay.subrange(i, i + needle.len()) == needle
}

/// Some word of `words` occurs in `hay`.
pub open spec fn contains_any(hay: Seq<char>, words: Seq<Seq<char>>) -> bool {
    exists|k: int| 0 <= k < words.len() && contains_sub(hay, #[trigger] words[k])
}

/// The words of a comma-separated blacklist, trimmed, empty ones left out.
pub open spec fn black_words_of(s: Option<Seq<char>>) -> Seq<Seq<char>> {
    match s {
        Some(t) => split_on(t, ',').map_values(|w: Seq<char>| trimmed(w)).filter(
            |w: Seq<char>| w.len() > 0,
        ),
        None => Seq::empty(),
    }
}

/// A result worth keeping: not a 404, and no blacklisted word in its body.
pub open spec fn found(status_code: u16, content: Option<Seq<char>>, words: Seq<Seq<char>>) -> bool {
    status_code != 404 && !(content is Some && contains_any(content->0, words))
}

/// Whether `needle` occurs in `hay`.
pub fn contains_str(hay: &Vec<char>, needle: &Vec<char>) -> (r: bool)
    ensures
        r == contains_sub(hay@, needle@),
{
    if needle.len() > hay.len() {
        return false;
    }
    let n = hay.len();
    let last = n - needle.len();
    let mut i: usize = 0;
    while i <= last
        invariant
            n == hay@.len(),
            last + needle@.len() == hay@.len(),
            i <= last,
            forall|k: int| 0 <= k < i ==> #[trigger] hay@.subrange(k, k + needle@.len()) != needle@,
        decreases last - i,
    {
        let mut j: usize = 0;
        let mut same = true;
        while j < needle.len()
            invariant
                n == hay@.len(),
                i <= last,
                last + needle@.len() == hay@.len(),
                j <= needle@.len(),
                same == (forall|t: int| 0 <= t < j ==> hay@[i + t] == needle@[t]),
            decreases needle@.len() - j,
        {
            if hay[i + j] != needle[j] {
                same = false;
            }
            j += 1;
        }
        if same {
            assert(hay@.subrange(i as int, i + needle@.len()) =~= needle@);
            return true;
        }
        assert(hay@.subrange(i as int, i + needle@.len()) != needle@) by {
            let t = choose|t: int| 0 <= t < needle@.len() && hay@[i + t] != needle@[t];
            assert(hay@.subrange(i as int, i + needle@.len())[t] != needle@[t]);
        }
        if i == last {
            return false;
        }
        i += 1;
    }
    false
}

/// Whether some word of `words` occurs in `hay`.
pub fn contains_any_word(hay: &str, words: &Vec<String>) -> (r: bool)
    ensures
        r == contains_any(hay@, views(words@)),
{
    let hs = chars_of(hay);
    let mut k: usize = 0;
    while k < words.len()
        invariant
            hs@ == hay@,
            k <= words@.len(),
            forall|m: int| 0 <= m < k ==> !contains_sub(hay@, #[trigger] views(words@)[m]),
        decreases words@.len() - k,
    {
        let w = chars_of(words[k].as_str());
        if contains_str(&hs, &w) {
            assert(views(words@)[k as int] == w@);
            return true;
        }
        k += 1;
    }
    false
}

/// The words of a comma-separated blacklist, trimmed, empty ones left out.
pub fn black_word_list(black_words: &Option<String>) -> (r: Vec<String>)
    ensures
        views(r@) == black_words_of(
            opt_view(*black_words),
        ),
{
    let mut r: Vec<String> = Vec::new();
    match black_words {
        None => r,
        Some(s) => {
            let pieces = split_char(s.as_str(), ',');
            let ghost all = split_on(s@, ',').map_values(|w: Seq<char>| trimmed(w));
            let mut i: usize = 0;
            while i < pieces.len()
                invariant
                    views(pieces@) == split_on(s@, ','),
                    all == split_on(s@, ',').map_values(|w: Seq<char>| trimmed(w)),
                    all.len() == pieces@.len(),
                    i <= pieces@.len(),
                    views(r@) == all.take(i as int).filter(|w: Seq<char>| w.len() > 0),
                decreases pieces@.len() - i,
            {
                let w = trim(pieces[i].as_str());
                assert(w@ == all[i as int]) by {
                    assert(pieces@[i as int]@ == views(pieces@)[i as int]);
                }
                assert(all.take(i as int + 1).drop_last() =~= all.take(i as int));
                proof {
                    reveal(Seq::filter);
                }
                if w.unicode_len() > 0 {
                    let mut t = String::new();
                    t.append(w);
                    let ghost old_r = r@;
                    r.push(t);
                    assert(views(r@) =~= views(old_r).push(w@));
                }
                assert(views(r@) =~= all.take(i as int + 1).filter(|w: Seq<char>| w.len() > 0));
                i += 1;
            }
            assert(all.take(i as int) =~= all);
            r
        },
    }
}

/// Whether a result is kept: not a 404, and no word of `words` in its body.
pub fn is_found(result: &EnumResult, words: &Vec<String>) -> (r: bool)
    ensures
        r == found(
            result.status_code,
            opt_view(result.content),
            views(words@),
        ),
{
    if result.status_code == 404 {
        return false;
    }
    match &result.content {
        Some(c) => !contains_any_word(c.as_str(), words),
        None => true,
    }
}

/// The decimal digits of `n`.
pub open spec fn decimal(n: nat) -> Seq<char>
    decreases n,
{
    if n < 10 {
        seq![alphanum()[52 + n as int]]
    } else {
        decimal(n / 10).push(alphanum()[52 + (n % 10) as int])
    }
}

/// The decimal digits of `n`.
pub fn decimal_string(n: u16) -> (r: String)
    ensures
        r@ == decimal(n as nat),
    decreases n,
{
    let digits = crate::dict::alphanum_chars();
    if n < 10 {
        let mut s = String::new();
        push_char(&mut s, digits[52 + n as usize]);
        assert(s@ =~= seq![alphanum()[52 + n as int]]);
        s
    } else {
        let mut s = decimal_string(n / 10);
        push_char(&mut s, digits[52 + (n % 10) as usize]);
        s
    }
}

/// The output line of a kept result: `"<status_code> <url>\n"`.
pub open spec fn result_line_of(status_code: u16, url: Seq<char>) -> Seq<char> {
    decimal(status_code as nat) + seq![' '] + url + seq!['\n']
}

/// The output line of a result: `"<status_code> <url>\n"`.
pub fn result_line(result: &EnumResult) -> (r: String)
    ensures
        r@ == result_line_of(result.status_code, result.url@),
{
    let mut s = decimal_string(result.status_code);
    push_char(&mut s, ' ');
    s.append(result.url.as_str());
    push_char(&mut s, '\n');
    assert(s@ =~= result_line_of(result.status_code, result.url@));
    s
}

/// What the sink does next.
#[derive(Debug, PartialEq, Eq)]
pub enum SaverAction {
    /// Append this line to the output.
    Write(String),
    /// The result is not kept.
    Discard,
    /// Nothing to read and no worker running: stop.
    Exit,
    /// Nothing to read yet: wait for the idle interval, then poll again.
    Wait,
}

/// The sink's decision after a non-blocking receive from the result queue.
pub fn saver_step(received: Option<EnumResult>, any_worker_running: bool, words: &Vec<String>) -> (r:
    SaverAction)
    ensures
        received is None && !any_worker_running ==> r == SaverAction::Exit,
        received is None && any_worker_running ==> r == SaverAction::Wait,
        received is Some ==> {
            let res = received->0;
            let content = opt_view(res.content);
            if found(res.status_code, content, views(words@)) {
                r is Write && r->Write_0@ == result_line_of(res.status_code, res.url@)
            } else {
                r == SaverAction::Discard
            }
        },
        received is Some && received->0.status_code == 404 ==> r == SaverAction::Discard,
{
    match received {
        None => if any_worker_running {
            SaverAction::Wait
        } else {
            SaverAction::Exit
        },
        Some(res) => if is_found(&res, words) {
            SaverAction::Write(result_line(&res))
        } else {
            SaverAction::Discard
        },
    }
}

/// Once every worker has stopped, none is running: with `saver_step`'s
/// contract, a sink that then finds the result queue empty exits at that poll
/// instead of waiting another idle interval.
pub proof fn lemma_sink_stops_after_workers(ctx: AppContext)
    requires
        forall|i: int|
            0 <= i < ctx.worker_status@.len() ==> ctx.worker_status@[i] == WorkerStatus::Stop,
    ensures
        !some_running(ctx.worker_status@),
{
}

} // verus!
