//! Which trackers are asked for peers, and in what order.
use vstd::prelude::*;
use vstd::string::*;
use crate::config::texts;
use crate::meta::{tier_views, MetaView, TorrentMeta};
use crate::strings::{begins, replaced, text_begins, text_replaced, text_without_prefixes, without_prefixes};

verus! {

/// The port on which peers are told to call back.
pub const LISTEN_PORT: u16 = 6881;

/// `list` with `url` behind it, unless it is there already.
pub open spec fn with_new(list: Seq<Seq<char>>, url: Seq<char>) -> Seq<Seq<char>> {
    if list.contains(url) {
        list
    } else {
        list.push(url)
    }
}

/// `list` with the first `n` of `urls` behind it, as far as they are new.
pub open spec fn with_all_new(list: Seq<Seq<char>>, urls: Seq<Seq<char>>, n: int) -> Seq<Seq<char>>
    decreases n,
{
    if n <= 0 {
        list
    } else {
        with_new(with_all_new(list, urls, n - 1), urls[n - 1])
    }
}

/// `list` with the trackers of the first `n` tiers behind it, as far as they are
/// new.
pub open spec fn with_tiers(list: Seq<Seq<char>>, tiers: Seq<Seq<Seq<char>>>, n: int) -> Seq<Seq<char>>
    decreases n,
{
    if n <= 0 {
        list
    } else {
        with_all_new(with_tiers(list, tiers, n - 1), tiers[n - 1], tiers[n - 1].len() as int)
    }
}

/// The trackers of a torrent: the main one, and then those of the tiers.
pub open spec fn trackers_of(meta: MetaView) -> Seq<Seq<char>> {
    match meta.announce_list {
        Some(tiers) => with_tiers(seq![meta.announce], tiers, tiers.len() as int),
        None => seq![meta.announce],
    }
}

/// Whether `list` holds `url`.
fn lists(list: &Vec<String>, url: &String) -> (r: bool)
    ensures
        r == texts(list@).contains(url@),
{
    let mut i: usize = 0;
    while i < list.len()
        invariant
            i <= list@.len(),
            forall|k: int| 0 <= k < i ==> #[trigger] texts(list@)[k] != url@,
        decreases list@.len() - i,
    {
        if list[i].eq(url) {
            assert(texts(list@)[i as int] == url@);
            return true;
        }
        i += 1;
    }
    false
}

impl TorrentMeta {
    /// The trackers of the torrent, each once.
    pub fn trackers(&self) -> (r: Vec<String>)
        ensures
            texts(r@) == trackers_of(self@),
    {
        let mut list: Vec<String> = Vec::new();
        list.push(self.announce.clone());
        let ghost first = texts(list@);
        assert(first =~= seq![self.announce@]);
        match &self.announce_list {
            Some(tiers) => {
                let ghost all = tier_views(tiers@);
                let mut t: usize = 0;
                while t < tiers.len()
                    invariant
                        t <= tiers@.len(),
                        all == tier_views(tiers@),
                        texts(list@) == with_tiers(first, all, t as int),
                    decreases tiers@.len() - t,
                {
                    let tier = &tiers[t];
                    let ghost before = texts(list@);
                    let mut k: usize = 0;
                    while k < tier.len()
                        invariant
                            k <= tier@.len(),
                            texts(list@) == with_all_new(before, texts(tier@), k as int),
                        decreases tier@.len() - k,
                    {
                        let ghost here = texts(list@);
                        assert(texts(tier@)[k as int] == tier@[k as int]@);
                        if !lists(&list, &tier[k]) {
                            list.push(tier[k].clone());
                            assert(texts(list@) =~= here.push(tier@[k as int]@));
                        }
                        k += 1;
                    }
                    assert(all[t as int] == texts(tier@));
                    t += 1;
                }
            },
            None => {},
        }
        list
    }
}

/// What a tracker is asked.
#[derive(Debug, Clone, PartialEq, Eq)]
pub enum AnnounceAction {
    /// A UDP tracker, by its host and port.
    Udp { host_port: String },
    Http { url: String },
    /// Nobody else is asked.
    Finished,
}

/// What an `AnnounceAction` says.
pub enum Ask {
    Udp { host_port: Seq<char> },
    Http { url: Seq<char> },
    Finished,
}

impl AnnounceAction {
    pub open spec fn view(&self) -> Ask {
        match self {
            AnnounceAction::Udp { host_port } => Ask::Udp { host_port: host_port@ },
            AnnounceAction::Http { url } => Ask::Http { url: url@ },
            AnnounceAction::Finished => Ask::Finished,
        }
    }
}

/// What a tracker answered.
#[derive(Debug, Clone, Copy, PartialEq, Eq, Structural)]
pub enum AnnounceAnswer {
    Peers,
    NoPeers,
    Failed,
}

/// How far a round through the trackers has come.
pub struct RoundView {
    pub trackers: Seq<Seq<char>>,
    /// Which tracker is asked.
    pub at: int,
    /// Whether it is asked over HTTP because it could not be asked over UDP.
    pub fallback: bool,
}

/// A round through the trackers.
pub struct AnnounceRound {
    trackers: Vec<String>,
    at: usize,
    fallback: bool,
}

/// Whether a tracker can be asked.
pub open spec fn is_askable(url: Seq<char>) -> bool {
    begins(url, "udp://"@) || begins(url, "http://"@)
}

/// The first tracker from `at` on that can be asked.
pub open spec fn next_askable(trackers: Seq<Seq<char>>, at: int) -> int
    decreases trackers.len() - at,
{
    if 0 <= at < trackers.len() && !is_askable(trackers[at]) {
        next_askable(trackers, at + 1)
    } else {
        at
    }
}

/// What is asked at a point of a round.
pub open spec fn ask_at(round: RoundView) -> Ask {
    if round.at >= round.trackers.len() {
        Ask::Finished
    } else {
        let url = round.trackers[round.at];
        if round.fallback {
            Ask::Http { url: replaced(url, "udp://"@, "http://"@) }
        } else if begins(url, "udp://"@) {
            Ask::Udp { host_port: without_prefixes(url, "udp://"@) }
        } else {
            Ask::Http { url }
        }
    }
}

/// Where a round goes on after an answer: nobody else is asked where there are
/// peers, a UDP tracker that failed is asked over HTTP, and in any other case
/// the next tracker is asked.
pub open spec fn after_answer(round: RoundView, answer: AnnounceAnswer) -> RoundView {
    if answer == AnnounceAnswer::Peers {
        RoundView { at: round.trackers.len() as int, fallback: false, ..round }
    } else if answer == AnnounceAnswer::Failed && !round.fallback && begins(round.trackers[round.at], "udp://"@) {
        RoundView { fallback: true, ..round }
    } else {
        RoundView { at: next_askable(round.trackers, round.at + 1), fallback: false, ..round }
    }
}

impl AnnounceRound {
    pub closed spec fn view(&self) -> RoundView {
        RoundView { trackers: texts(self.trackers@), at: self.at as int, fallback: self.fallback }
    }

    /// The tracker that is asked can be asked.
    pub open spec fn wf(&self) -> bool {
        &&& 0 <= self@.at <= self@.trackers.len()
        &&& self@.at < self@.trackers.len() ==> is_askable(self@.trackers[self@.at])
    }

    /// The beginning of a round.
    pub fn new(trackers: Vec<String>) -> (r: Self)
        ensures
            r.wf(),
            r@ == (RoundView {
                trackers: texts(trackers@),
                at: next_askable(texts(trackers@), 0),
                fallback: false,
            }),
    {
        let at: usize = first_askable(&trackers, 0);
        AnnounceRound { trackers, at, fallback: false }
    }

    /// What is to be asked now.
    pub fn action(&self) -> (r: AnnounceAction)
        requires
            self.wf(),
        ensures
            r@ == ask_at(self@),
    {
        if self.at >= self.trackers.len() {
            return AnnounceAction::Finished;
        }
        let url = &self.trackers[self.at];
        assert(self@.trackers[self.at as int] == url@);
        if self.fallback {
            proof {
                reveal_strlit("udp://");
            }
            AnnounceAction::Http { url: text_replaced(url.as_str(), "udp://", "http://") }
        } else if text_begins(url.as_str(), "udp://") {
            AnnounceAction::Udp { host_port: text_without_prefixes(url.as_str(), "udp://") }
        } else {
            AnnounceAction::Http { url: url.clone() }
        }
    }

    /// Takes note of what a tracker answered.
    pub fn answered(&mut self, answer: AnnounceAnswer)
        requires
            old(self).wf(),
            old(self)@.at < old(self)@.trackers.len(),
        ensures
            final(self).wf(),
            final(self)@ == after_answer(old(self)@, answer),
    {
        let total: usize = self.trackers.len();
        if answer == AnnounceAnswer::Peers {
            self.at = total;
            self.fallback = false;
        } else {
            assert(self@.trackers[self.at as int] == self.trackers@[self.at as int]@);
            let udp: bool = text_begins(self.trackers[self.at].as_str(), "udp://");
            if answer == AnnounceAnswer::Failed && !self.fallback && udp {
                self.fallback = true;
            } else {
                self.at = first_askable(&self.trackers, self.at + 1);
                self.fallback = false;
            }
        }
    }
}

/// The first tracker from `from` on that can be asked.
fn first_askable(trackers: &Vec<String>, from: usize) -> (r: usize)
    requires
        from <= trackers@.len(),
    ensures
        r == next_askable(texts(trackers@), from as int),
        from <= r <= trackers@.len(),
        r < trackers@.len() ==> is_askable(texts(trackers@)[r as int]),
{
    let mut at: usize = from;
    while at < trackers.len()
        invariant
            from <= at <= trackers@.len(),
            next_askable(texts(trackers@), at as int) == next_askable(texts(trackers@), from as int),
        decreases trackers@.len() - at,
    {
        assert(texts(trackers@)[at as int] == trackers@[at as int]@);
        if text_begins(trackers[at].as_str(), "udp://") || text_begins(trackers[at].as_str(), "http://") {
            return at;
        }
        at += 1;
    }
    at
}

/// The main tracker comes first, and no tracker comes twice.
pub proof fn trackers_come_once(meta: MetaView)
    ensures
        trackers_of(meta).len() > 0,
        trackers_of(meta)[0] == meta.announce,
        trackers_of(meta).no_duplicates(),
{
    match meta.announce_list {
        Some(tiers) => {
            let first = seq![meta.announce];
            lemma_tiers_once(first, tiers, tiers.len() as int);
            assert(trackers_of(meta)[0] == first[0]) by {
                assert(first == trackers_of(meta).subrange(0, 1));
            }
        },
        None => {},
    }
}

proof fn lemma_tiers_once(list: Seq<Seq<char>>, tiers: Seq<Seq<Seq<char>>>, n: int)
    requires
        list.no_duplicates(),
        0 <= n <= tiers.len(),
    ensures
        with_tiers(list, tiers, n).no_duplicates(),
        list.is_prefix_of(with_tiers(list, tiers, n)),
    decreases n,
{
    if n > 0 {
        lemma_tiers_once(list, tiers, n - 1);
        lemma_urls_once(with_tiers(list, tiers, n - 1), tiers[n - 1], tiers[n - 1].len() as int);
    }
}

proof fn lemma_urls_once(list: Seq<Seq<char>>, urls: Seq<Seq<char>>, n: int)
    requires
        list.no_duplicates(),
        0 <= n <= urls.len(),
    ensures
        with_all_new(list, urls, n).no_duplicates(),
        list.is_prefix_of(with_all_new(list, urls, n)),
    decreases n,
{
    if n > 0 {
        lemma_urls_once(list, urls, n - 1);
    }
}

/// Every tracker of every tier is among the trackers of the torrent.
pub proof fn every_tracker_is_listed(meta: MetaView, t: int, k: int)
    requires
        meta.announce_list is Some,
        0 <= t < meta.announce_list->0.len(),
        0 <= k < meta.announce_list->0[t].len(),
    ensures
        trackers_of(meta).contains(meta.announce_list->0[t][k]),
{
    let tiers = meta.announce_list->0;
    lemma_tier_listed(seq![meta.announce], tiers, tiers.len() as int, t, k);
}

proof fn lemma_tier_listed(list: Seq<Seq<char>>, tiers: Seq<Seq<Seq<char>>>, n: int, t: int, k: int)
    requires
        0 <= t < n <= tiers.len(),
        0 <= k < tiers[t].len(),
    ensures
        with_tiers(list, tiers, n).contains(tiers[t][k]),
    decreases n,
{
    let before = with_tiers(list, tiers, n - 1);
    let urls = tiers[n - 1];
    if t < n - 1 {
        lemma_tier_listed(list, tiers, n - 1, t, k);
        lemma_url_stays(before, urls, urls.len() as int, tiers[t][k]);
    } else {
        lemma_url_listed(before, urls, urls.len() as int, k);
    }
}

proof fn lemma_url_stays(list: Seq<Seq<char>>, urls: Seq<Seq<char>>, n: int, url: Seq<char>)
    requires
        list.contains(url),
        0 <= n <= urls.len(),
    ensures
        with_all_new(list, urls, n).contains(url),
    decreases n,
{
    if n > 0 {
        lemma_url_stays(list, urls, n - 1, url);
        lemma_new_keeps(with_all_new(list, urls, n - 1), urls[n - 1], url);
    }
}

proof fn lemma_url_listed(list: Seq<Seq<char>>, urls: Seq<Seq<char>>, n: int, k: int)
    requires
        0 <= k < n <= urls.len(),
    ensures
        with_all_new(list, urls, n).contains(urls[k]),
    decreases n,
{
    let before = with_all_new(list, urls, n - 1);
    if k < n - 1 {
        lemma_url_listed(list, urls, n - 1, k);
        lemma_new_keeps(before, urls[n - 1], urls[k]);
    } else if !before.contains(urls[k]) {
        assert(before.push(urls[k])[before.len() as int] == urls[k]);
    }
}

proof fn lemma_new_keeps(list: Seq<Seq<char>>, new: Seq<char>, url: Seq<char>)
    requires
        list.contains(url),
    ensures
        with_new(list, new).contains(url),
{
    let i = choose|i: int| 0 <= i < list.len() && list[i] == url;
    assert(with_new(list, new)[i] == url);
}

/// How many questions a round can still ask.
pub open spec fn questions_left(round: RoundView) -> int {
    2 * (round.trackers.len() - round.at) - if round.fallback {
        1int
    } else {
        0
    }
}

/// A round comes to an end: every answer leaves fewer questions, and once there
/// are peers nobody else is asked.
pub proof fn a_round_ends(round: RoundView, answer: AnnounceAnswer)
    requires
        0 <= round.at < round.trackers.len(),
    ensures
        0 <= questions_left(after_answer(round, answer)) < questions_left(round),
        answer == AnnounceAnswer::Peers ==> ask_at(after_answer(round, answer)) == Ask::Finished,
{
    lemma_next_askable_range(round.trackers, round.at + 1);
}

proof fn lemma_next_askable_range(trackers: Seq<Seq<char>>, at: int)
    requires
        0 <= at <= trackers.len(),
    ensures
        at <= next_askable(trackers, at) <= trackers.len(),
    decreases trackers.len() - at,
{
    if at < trackers.len() && !is_askable(trackers[at]) {
        lemma_next_askable_range(trackers, at + 1);
    }
}

} // verus!
