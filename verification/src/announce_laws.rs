//! What holds of a round through the trackers.
use vstd::prelude::*;
use vstd::string::*;
use crate::announce::{
    after_answer, ask_at, is_askable, next_askable, trackers_of, with_all_new, with_tiers, Ask,
    AnnounceAnswer, RoundView,
};
use crate::meta::MetaView;
use crate::strings::{begins, holds, replaced, without_prefixes};

verus! {

/// A tracker can be asked where its address is one for UDP or for HTTP.
pub proof fn who_can_be_asked(url: Seq<char>)
    ensures
        is_askable(url) <==> (url.len() >= 6 && url.take(6) == seq!['u', 'd', 'p', ':', '/', '/']) || (url.len() >= 7
            && url.take(7) == seq!['h', 't', 't', 'p', ':', '/', '/']),
{
    reveal_strlit("udp://");
    reveal_strlit("http://");
    assert("udp://"@ =~= seq!['u', 'd', 'p', ':', '/', '/']);
    assert("http://"@ =~= seq!['h', 't', 't', 'p', ':', '/', '/']);
    assert(url.len() >= 6 ==> url.subrange(0, 6) =~= url.take(6));
    assert(url.len() >= 7 ==> url.subrange(0, 7) =~= url.take(7));
}

/// A search for a tracker passes nobody over who can be asked.
pub proof fn the_next_is_the_first_that_can_be_asked(trackers: Seq<Seq<char>>, at: int)
    requires
        0 <= at <= trackers.len(),
    ensures
        at <= next_askable(trackers, at) <= trackers.len(),
        next_askable(trackers, at) < trackers.len() ==> is_askable(trackers[next_askable(trackers, at)]),
        forall|k: int| at <= k < next_askable(trackers, at) ==> !is_askable(#[trigger] trackers[k]),
    decreases trackers.len() - at,
{
    if at < trackers.len() && !is_askable(trackers[at]) {
        the_next_is_the_first_that_can_be_asked(trackers, at + 1);
    }
}

/// After an answer without peers a round stays with a tracker only to ask over HTTP
/// what could not be asked over UDP. Otherwise it goes on with the first tracker
/// behind it that can be asked, and is finished only where there is none.
pub proof fn nobody_is_passed_over(round: RoundView, answer: AnnounceAnswer)
    requires
        0 <= round.at < round.trackers.len(),
        answer != AnnounceAnswer::Peers,
    ensures
        ({
            let after = after_answer(round, answer);
            let again = answer == AnnounceAnswer::Failed && !round.fallback && begins(
                round.trackers[round.at],
                "udp://"@,
            );
            &&& after.trackers == round.trackers
            &&& again ==> after.at == round.at && after.fallback
            &&& !again ==> !after.fallback && round.at < after.at
            &&& forall|k: int| round.at < k < after.at ==> !is_askable(#[trigger] round.trackers[k])
            &&& !again && after.at < round.trackers.len() ==> is_askable(round.trackers[after.at])
            &&& ask_at(after) is Finished <==> !again && (forall|k: int|
                round.at < k < round.trackers.len() ==> !is_askable(#[trigger] round.trackers[k]))
        }),
{
    the_next_is_the_first_that_can_be_asked(round.trackers, round.at + 1);
}

/// With peers a round is over.
pub proof fn with_peers_a_round_is_over(round: RoundView)
    ensures
        ask_at(after_answer(round, AnnounceAnswer::Peers)) is Finished,
        after_answer(round, AnnounceAnswer::Peers).trackers == round.trackers,
{
}

/// Where a round stands after some answers.
pub open spec fn after_answers(round: RoundView, answers: Seq<AnnounceAnswer>) -> RoundView
    decreases answers.len(),
{
    if answers.len() == 0 {
        round
    } else {
        let before = after_answers(round, answers.drop_last());
        if before.at >= before.trackers.len() {
            before
        } else {
            after_answer(before, answers.last())
        }
    }
}

/// In a round that starts at its beginning, every tracker that can be asked and that
/// lies behind is one that was asked: as long as nobody names peers, the round asks
/// one after the other.
pub proof fn everyone_is_asked_in_turn(trackers: Seq<Seq<char>>, answers: Seq<AnnounceAnswer>, k: int)
    requires
        forall|i: int| 0 <= i < answers.len() ==> #[trigger] answers[i] != AnnounceAnswer::Peers,
        0 <= k < trackers.len(),
        is_askable(trackers[k]),
    ensures
        ({
            let start = RoundView { trackers, at: next_askable(trackers, 0), fallback: false };
            &&& after_answers(start, answers).trackers == trackers
            &&& 0 <= after_answers(start, answers).at <= trackers.len()
            &&& k < after_answers(start, answers).at ==> exists|j: int|
                0 <= j < answers.len() && (#[trigger] after_answers(start, answers.take(j))).at == k
        }),
    decreases answers.len(),
{
    let start = RoundView { trackers, at: next_askable(trackers, 0), fallback: false };
    the_next_is_the_first_that_can_be_asked(trackers, 0);
    if answers.len() > 0 {
        let fewer = answers.drop_last();
        let n = fewer.len() as int;
        let before = after_answers(start, fewer);
        assert forall|i: int| 0 <= i < fewer.len() implies #[trigger] fewer[i] != AnnounceAnswer::Peers by {
            assert(answers[i] != AnnounceAnswer::Peers);
        }
        everyone_is_asked_in_turn(trackers, fewer, k);
        assert(answers[n] != AnnounceAnswer::Peers);
        if before.at < before.trackers.len() {
            nobody_is_passed_over(before, answers.last());
            the_next_is_the_first_that_can_be_asked(trackers, before.at + 1);
        }
        if k < after_answers(start, answers).at {
            if k < before.at {
                let j = choose|j: int|
                    0 <= j < fewer.len() && (#[trigger] after_answers(start, fewer.take(j))).at == k;
                assert(fewer.take(j) =~= answers.take(j));
                assert(after_answers(start, answers.take(j)).at == k);
            } else {
                assert(answers.take(n) =~= fewer);
                assert(after_answers(start, answers.take(n)).at == k);
            }
        }
    } else {
        assert(answers.len() == 0);
    }
}

/// A UDP tracker is asked by its host and port, and an HTTP tracker by its address.
pub proof fn how_a_tracker_is_asked(round: RoundView, rest: Seq<char>)
    requires
        0 <= round.at < round.trackers.len(),
    ensures
        !round.fallback && round.trackers[round.at] == "udp://"@ + rest && !begins(rest, "udp://"@) ==> ask_at(round)
            == (Ask::Udp { host_port: rest }),
        !round.fallback && round.trackers[round.at] == "http://"@ + rest ==> ask_at(round) == (Ask::Http {
            url: round.trackers[round.at],
        }),
        round.fallback && round.trackers[round.at] == "udp://"@ + rest && !holds(rest, "udp://"@) ==> ask_at(round)
            == (Ask::Http { url: "http://"@ + rest }),
        round.fallback ==> ask_at(round) == (Ask::Http {
            url: replaced(round.trackers[round.at], "udp://"@, "http://"@),
        }),
        !round.fallback && begins(round.trackers[round.at], "udp://"@) ==> ask_at(round) == (Ask::Udp {
            host_port: without_prefixes(round.trackers[round.at], "udp://"@),
        }),
        !round.fallback && !begins(round.trackers[round.at], "udp://"@) ==> ask_at(round) == (Ask::Http {
            url: round.trackers[round.at],
        }),
{
    let url = round.trackers[round.at];
    let udp = "udp://"@;
    let http = "http://"@;
    reveal_strlit("udp://");
    reveal_strlit("http://");
    if url == udp + rest {
        assert(url.subrange(0, 6) =~= udp);
        assert(url.skip(6) =~= rest);
        reveal_with_fuel(without_prefixes, 2);
        if !holds(rest, udp) {
            crate::string_laws::what_does_not_hold_a_part_stays(rest, udp, http);
            assert(replaced(url, udp, http) == http + replaced(rest, udp, http));
        }
    }
    if url == http + rest && begins(url, udp) {
        assert(url[0] == 'h');
        assert(url.subrange(0, 6)[0] == 'u');
    }
}

/// A UDP tracker that could not be asked is asked over HTTP, at the same host.
pub proof fn a_failed_udp_tracker_is_asked_over_http(round: RoundView, rest: Seq<char>)
    requires
        0 <= round.at < round.trackers.len(),
        !round.fallback,
        round.trackers[round.at] == "udp://"@ + rest,
        !holds(rest, "udp://"@),
    ensures
        ask_at(after_answer(round, AnnounceAnswer::Failed)) == (Ask::Http { url: "http://"@ + rest }),
        after_answer(round, AnnounceAnswer::Failed).at == round.at,
{
    let url = round.trackers[round.at];
    reveal_strlit("udp://");
    assert(url.subrange(0, 6) =~= "udp://"@);
    how_a_tracker_is_asked(after_answer(round, AnnounceAnswer::Failed), rest);
}

/// Without tiers the main tracker is the only one.
pub proof fn without_tiers_there_is_one_tracker(meta: MetaView)
    requires
        meta.announce_list matches Some(tiers) ==> tiers.len() == 0,
    ensures
        trackers_of(meta) == seq![meta.announce],
{
}

/// One more tier adds its trackers behind the others, in their order and as far as
/// they are not among those before.
pub proof fn one_more_tier_adds_its_trackers(meta: MetaView, tiers: Seq<Seq<Seq<char>>>, tier: Seq<Seq<char>>)
    ensures
        ({
            let before = trackers_of(MetaView { announce_list: Some(tiers), ..meta });
            let after = trackers_of(MetaView { announce_list: Some(tiers.push(tier)), ..meta });
            &&& before.is_prefix_of(after)
            &&& forall|i: int| 0 <= i < tier.len() ==> after.contains(#[trigger] tier[i])
            &&& forall|i: int| before.len() <= i < after.len() ==> tier.contains(#[trigger] after[i])
            &&& forall|i: int, j: int|
                before.len() <= i < j < after.len() ==> first_place(tier, #[trigger] after[i]) < first_place(
                    tier,
                    #[trigger] after[j],
                )
        }),
{
    let old_tiers = tiers.push(tier);
    let n = tiers.len() as int;
    let first = seq![meta.announce];
    lemma_same_tiers(first, tiers, old_tiers, n);
    assert(old_tiers[n] == tier);
    let before = with_tiers(first, tiers, n);
    lemma_added(before, tier, tier.len() as int);
}

/// Where `url` stands first among `urls`; their number where it does not.
pub open spec fn first_place(urls: Seq<Seq<char>>, url: Seq<char>) -> int
    decreases urls.len(),
{
    if urls.len() == 0 || urls[0] == url {
        0
    } else {
        1 + first_place(urls.skip(1), url)
    }
}

proof fn lemma_same_tiers(list: Seq<Seq<char>>, a: Seq<Seq<Seq<char>>>, b: Seq<Seq<Seq<char>>>, n: int)
    requires
        0 <= n <= a.len() <= b.len(),
        forall|i: int| 0 <= i < n ==> #[trigger] a[i] == b[i],
    ensures
        with_tiers(list, a, n) == with_tiers(list, b, n),
    decreases n,
{
    if n > 0 {
        lemma_same_tiers(list, a, b, n - 1);
        assert(a[n - 1] == b[n - 1]);
    }
}

proof fn lemma_first_place(urls: Seq<Seq<char>>, k: int)
    requires
        0 <= k < urls.len(),
    ensures
        0 <= first_place(urls, urls[k]) <= k,
        urls[first_place(urls, urls[k])] == urls[k],
        forall|i: int| 0 <= i < first_place(urls, urls[k]) ==> #[trigger] urls[i] != urls[k],
    decreases k,
{
    if urls[0] != urls[k] {
        let rest = urls.skip(1);
        assert(rest[k - 1] == urls[k]);
        lemma_first_place(rest, k - 1);
        let p = first_place(rest, urls[k]);
        assert(urls[p + 1] == rest[p]);
        assert forall|i: int| 0 <= i < p + 1 implies #[trigger] urls[i] != urls[k] by {
            if i > 0 {
                assert(rest[i - 1] == urls[i]);
            }
        }
    }
}

proof fn lemma_added(list: Seq<Seq<char>>, urls: Seq<Seq<char>>, n: int)
    requires
        0 <= n <= urls.len(),
    ensures
        ({
            let after = with_all_new(list, urls, n);
            &&& list.is_prefix_of(after)
            &&& forall|i: int| 0 <= i < n ==> after.contains(#[trigger] urls[i])
            &&& forall|i: int|
                list.len() <= i < after.len() ==> urls.contains(#[trigger] after[i]) && 0 <= first_place(urls, after[i])
                    < n
            &&& forall|i: int, j: int|
                list.len() <= i < j < after.len() ==> first_place(urls, #[trigger] after[i]) < first_place(
                    urls,
                    #[trigger] after[j],
                )
        }),
    decreases n,
{
    if n > 0 {
        lemma_added(list, urls, n - 1);
        let before = with_all_new(list, urls, n - 1);
        let after = with_all_new(list, urls, n);
        let url = urls[n - 1];
        assert forall|i: int| 0 <= i < n implies after.contains(#[trigger] urls[i]) by {
            if i < n - 1 {
                assert(before.contains(urls[i]));
                let k = choose|k: int| 0 <= k < before.len() && before[k] == urls[i];
                assert(after[k] == urls[i]);
            } else if !before.contains(url) {
                assert(after[before.len() as int] == url);
            }
        }
        lemma_first_place(urls, n - 1);
        if !before.contains(url) {
            let p = first_place(urls, url);
            if p < n - 1 {
                assert(before.contains(urls[p]));
            }
        }
    }
}

/// Nothing is asked but the main tracker and the trackers of the tiers.
pub proof fn only_named_trackers_are_listed(meta: MetaView, i: int)
    requires
        0 <= i < trackers_of(meta).len(),
    ensures
        trackers_of(meta)[i] == meta.announce || (meta.announce_list matches Some(tiers) && exists|t: int|
            0 <= t < tiers.len() && (#[trigger] tiers[t]).contains(trackers_of(meta)[i])),
{
    if let Some(tiers) = meta.announce_list {
        lemma_named(seq![meta.announce], tiers, tiers.len() as int, i);
    }
}

proof fn lemma_named(list: Seq<Seq<char>>, tiers: Seq<Seq<Seq<char>>>, n: int, i: int)
    requires
        0 <= n <= tiers.len(),
        0 <= i < with_tiers(list, tiers, n).len(),
    ensures
        list.contains(with_tiers(list, tiers, n)[i]) || exists|t: int|
            0 <= t < n && (#[trigger] tiers[t]).contains(with_tiers(list, tiers, n)[i]),
    decreases n,
{
    if n > 0 {
        let before = with_tiers(list, tiers, n - 1);
        let tier = tiers[n - 1];
        lemma_added(before, tier, tier.len() as int);
        if i < before.len() {
            lemma_named(list, tiers, n - 1, i);
            assert(before[i] == with_tiers(list, tiers, n)[i]);
        } else {
            assert(tiers[n - 1].contains(with_tiers(list, tiers, n)[i]));
        }
    } else {
        assert(list.contains(list[i]));
    }
}

} // verus!
