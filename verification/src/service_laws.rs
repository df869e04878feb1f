//! On which days the services of a timetable run.

use crate::day_services::services_on;
use crate::ids::{namespaced, namespacing_is_injective};
use crate::model::FeedConfig;
use crate::records::FeedView;
use crate::static_core::{
    core_of, route_ids, runs_on_weekday, stop_ids, trip_ids, with_calendar, with_exceptions, with_feed, with_routes, with_rule, with_rules, with_shapes, with_stops,
    with_trips, CalendarException, CalendarRule, CoreView, GtfsFeed, GtfsRoute, GtfsStop, GtfsTrip,
};
use crate::text_order::{text_order_of, texts_view};
use vstd::prelude::*;

verus! {

/// Whether a rule is for a day. The days are counted from the first of January of the
/// year 1, which is day 1 and a Monday; so day 2 is a Tuesday, and every seventh day a
/// Sunday.
pub open spec fn rule_is_for(rule: CalendarRule, day: int) -> bool {
    &&& rule.start_day <= day <= rule.end_day
    &&& {
        ||| rule.monday && day % 7 == 1
        ||| rule.tuesday && day % 7 == 2
        ||| rule.wednesday && day % 7 == 3
        ||| rule.thursday && day % 7 == 4
        ||| rule.friday && day % 7 == 5
        ||| rule.saturday && day % 7 == 6
        ||| rule.sunday && day % 7 == 0
    }
}

/// Whether one of the rules of a service is for a day.
pub open spec fn some_rule_is_for(rules: Seq<CalendarRule>, service_id: Seq<char>, day: int) -> bool {
    exists|r: int| 0 <= r < rules.len() && (#[trigger] rules[r]).service_id@ == service_id && rule_is_for(rules[r], day)
}

/// Whether an exception is for a service and a day.
pub open spec fn exception_is_for(exception: CalendarException, service_id: Seq<char>, day: int) -> bool {
    exception.service_id@ == service_id && exception.day == day
}

/// Whether an exception is the last one for a service and a day.
pub open spec fn last_exception_for(exceptions: Seq<CalendarException>, service_id: Seq<char>, day: int, e: int) -> bool {
    &&& 0 <= e < exceptions.len()
    &&& exception_is_for(exceptions[e], service_id, day)
    &&& forall|k: int| e < k < exceptions.len() ==> !exception_is_for(#[trigger] exceptions[k], service_id, day)
}

/// Whether no exception is for a service and a day.
pub open spec fn no_exception_for(exceptions: Seq<CalendarException>, service_id: Seq<char>, day: int) -> bool {
    forall|k: int| 0 <= k < exceptions.len() ==> !exception_is_for(#[trigger] exceptions[k], service_id, day)
}

proof fn names_differ(feed_id: Seq<char>, a: Seq<char>, b: Seq<char>)
    ensures
        (namespaced(feed_id, a) == namespaced(feed_id, b)) == (a == b),
{
    if namespaced(feed_id, a) == namespaced(feed_id, b) {
        let n = feed_id.len() + 1;
        assert(namespaced(feed_id, a).skip(n as int) =~= a);
        assert(namespaced(feed_id, b).skip(n as int) =~= b);
    }
}

proof fn weekdays_are_counted(rule: CalendarRule, day: int)
    ensures
        runs_on_weekday(rule, day) == ((rule.monday && day % 7 == 1) || (rule.tuesday && day % 7 == 2) || (rule.wednesday && day % 7 == 3) || (rule.thursday && day % 7
            == 4) || (rule.friday && day % 7 == 5) || (rule.saturday && day % 7 == 6) || (rule.sunday && day % 7 == 0)),
{
}

proof fn rule_adds(calendar: Map<i32, Set<Seq<char>>>, name: Seq<char>, rule: CalendarRule, before_day: int, day: i32, service: Seq<char>)
    requires
        before_day <= rule.end_day + 1,
    ensures
        services_on(with_rule(calendar, name, rule, before_day), day).contains(service) == (services_on(calendar, day).contains(service) || (service == name && day
            < before_day && rule_is_for(rule, day as int))),
    decreases before_day - rule.start_day,
{
    if before_day > rule.start_day {
        rule_adds(calendar, name, rule, before_day - 1, day, service);
        weekdays_are_counted(rule, before_day - 1);
    }
}

proof fn rules_add(calendar: Map<i32, Set<Seq<char>>>, feed_id: Seq<char>, rules: Seq<CalendarRule>, n: int, day: i32, service_id: Seq<char>)
    requires
        0 <= n <= rules.len(),
    ensures
        services_on(with_rules(calendar, feed_id, rules, n), day).contains(namespaced(feed_id, service_id)) == (services_on(calendar, day).contains(
            namespaced(feed_id, service_id),
        ) || some_rule_is_for(rules.take(n), service_id, day as int)),
    decreases n,
{
    let service = namespaced(feed_id, service_id);
    if n > 0 {
        let rule = rules[n - 1];
        rules_add(calendar, feed_id, rules, n - 1, day, service_id);
        rule_adds(with_rules(calendar, feed_id, rules, n - 1), namespaced(feed_id, rule.service_id@), rule, rule.end_day + 1, day, service);
        names_differ(feed_id, rule.service_id@, service_id);
        let before = rules.take(n - 1);
        let after = rules.take(n);
        if some_rule_is_for(before, service_id, day as int) {
            let r = choose|r: int| 0 <= r < before.len() && (#[trigger] before[r]).service_id@ == service_id && rule_is_for(before[r], day as int);
            assert(after[r] == before[r]);
        }
        if some_rule_is_for(after, service_id, day as int) {
            let r = choose|r: int| 0 <= r < after.len() && (#[trigger] after[r]).service_id@ == service_id && rule_is_for(after[r], day as int);
            if r < n - 1 {
                assert(before[r] == after[r]);
            }
        }
        assert(after[n - 1] == rule);
    }
}

proof fn exceptions_decide(calendar: Map<i32, Set<Seq<char>>>, feed_id: Seq<char>, exceptions: Seq<CalendarException>, n: int, day: i32, service_id: Seq<char>)
    requires
        0 <= n <= exceptions.len(),
    ensures
        ({
            let service = namespaced(feed_id, service_id);
            let runs = services_on(with_exceptions(calendar, feed_id, exceptions, n), day).contains(service);
            &&& no_exception_for(exceptions.take(n), service_id, day as int) ==> runs == services_on(calendar, day).contains(service)
            &&& forall|e: int| #[trigger] last_exception_for(exceptions.take(n), service_id, day as int, e) ==> runs == exceptions[e].added
        }),
    decreases n,
{
    if n > 0 {
        let service = namespaced(feed_id, service_id);
        let exception = exceptions[n - 1];
        exceptions_decide(calendar, feed_id, exceptions, n - 1, day, service_id);
        names_differ(feed_id, exception.service_id@, service_id);
        let before = exceptions.take(n - 1);
        let after = exceptions.take(n);
        assert(after[n - 1] == exception);
        assert forall|k: int| 0 <= k < n - 1 implies before[k] == #[trigger] after[k] by {}
        let runs = services_on(with_exceptions(calendar, feed_id, exceptions, n), day).contains(service);
        if no_exception_for(after, service_id, day as int) {
            assert forall|k: int| 0 <= k < before.len() implies !exception_is_for(#[trigger] before[k], service_id, day as int) by {
                assert(after[k] == before[k]);
            }
        }
        assert forall|e: int| #[trigger] last_exception_for(after, service_id, day as int, e) implies runs == exceptions[e].added by {
            if e < n - 1 {
                assert(!exception_is_for(after[n - 1], service_id, day as int));
                assert(before[e] == after[e]);
                assert forall|k: int| e < k < before.len() implies !exception_is_for(#[trigger] before[k], service_id, day as int) by {
                    assert(after[k] == before[k]);
                }
                assert(last_exception_for(before, service_id, day as int, e));
            }
        }
    }
}

/// A service runs on a day if the last exception for both says so. Where there is none,
/// it runs if one of its rules is for the day, or if it did so before the feed was read.
pub proof fn services_run_on_their_days(calendar: Map<i32, Set<Seq<char>>>, feed_id: Seq<char>, gtfs: GtfsFeed, day: i32, service_id: Seq<char>)
    ensures
        ({
            let service = feed_id + seq![':'] + service_id;
            let runs = services_on(with_calendar(calendar, feed_id, gtfs), day).contains(service);
            &&& forall|e: int| #[trigger] last_exception_for(gtfs.exceptions@, service_id, day as int, e) ==> runs == gtfs.exceptions@[e].added
            &&& no_exception_for(gtfs.exceptions@, service_id, day as int) ==> runs == (some_rule_is_for(gtfs.calendar@, service_id, day as int) || services_on(calendar, day).contains(service))
        }),
{
    let rules = gtfs.calendar@;
    let exceptions = gtfs.exceptions@;
    rules_add(calendar, feed_id, rules, rules.len() as int, day, service_id);
    exceptions_decide(with_rules(calendar, feed_id, rules, rules.len() as int), feed_id, exceptions, exceptions.len() as int, day, service_id);
    assert(rules.take(rules.len() as int) =~= rules);
    assert(exceptions.take(exceptions.len() as int) =~= exceptions);
}

proof fn rule_leaves(calendar: Map<i32, Set<Seq<char>>>, feed_id: Seq<char>, rules: Seq<CalendarRule>, n: int, day: i32, service: Seq<char>)
    requires
        0 <= n <= rules.len(),
        forall|local: Seq<char>| service != #[trigger] namespaced(feed_id, local),
    ensures
        services_on(with_rules(calendar, feed_id, rules, n), day).contains(service) == services_on(calendar, day).contains(service),
    decreases n,
{
    if n > 0 {
        let rule = rules[n - 1];
        rule_leaves(calendar, feed_id, rules, n - 1, day, service);
        rule_adds(with_rules(calendar, feed_id, rules, n - 1), namespaced(feed_id, rule.service_id@), rule, rule.end_day + 1, day, service);
    }
}

proof fn exceptions_leave(calendar: Map<i32, Set<Seq<char>>>, feed_id: Seq<char>, exceptions: Seq<CalendarException>, n: int, day: i32, service: Seq<char>)
    requires
        0 <= n <= exceptions.len(),
        forall|local: Seq<char>| service != #[trigger] namespaced(feed_id, local),
    ensures
        services_on(with_exceptions(calendar, feed_id, exceptions, n), day).contains(service) == services_on(calendar, day).contains(service),
    decreases n,
{
    if n > 0 {
        exceptions_leave(calendar, feed_id, exceptions, n - 1, day, service);
        assert(service != namespaced(feed_id, exceptions[n - 1].service_id@));
    }
}

proof fn stops_keep_calendar(core: CoreView, feed: FeedConfig, stops: Seq<GtfsStop>, order: Seq<usize>, n: int)
    ensures
        with_stops(core, feed, stops, order, n) is Ok ==> with_stops(core, feed, stops, order, n)->Ok_0.core.calendar == core.calendar,
    decreases n,
{
    if n > 0 {
        stops_keep_calendar(core, feed, stops, order, n - 1);
    }
}

proof fn routes_keep_calendar(core: CoreView, feed: FeedConfig, routes: Seq<GtfsRoute>, order: Seq<usize>, n: int)
    ensures
        with_routes(core, feed, routes, order, n) is Ok ==> with_routes(core, feed, routes, order, n)->Ok_0.core.calendar == core.calendar,
    decreases n,
{
    if n > 0 {
        routes_keep_calendar(core, feed, routes, order, n - 1);
    }
}

proof fn trips_keep_calendar(core: CoreView, feed: FeedConfig, trips: Seq<GtfsTrip>, order: Seq<usize>, stops: Map<Seq<char>, usize>, routes: Map<Seq<char>, usize>, n: int)
    ensures
        with_trips(core, feed, trips, order, stops, routes, n) is Ok ==> with_trips(core, feed, trips, order, stops, routes, n)->Ok_0.calendar == core.calendar,
    decreases n,
{
    if n > 0 {
        trips_keep_calendar(core, feed, trips, order, stops, routes, n - 1);
    }
}

proof fn feed_adds_its_calendar(core: CoreView, feed: FeedConfig, gtfs: GtfsFeed)
    requires
        with_feed(core, feed, gtfs) is Ok,
    ensures
        with_feed(core, feed, gtfs)->Ok_0.calendar == with_calendar(core.calendar, feed.id@, gtfs),
{
    let begun = CoreView {
        feeds: core.feeds.push(
            FeedView {
                feed_index: feed.feed_index,
                id: feed.id@,
                static_gtfs_path: feed.static_gtfs_path@,
                depends_on: texts_view(feed.depends_on@),
            },
        ),
        ..core
    };
    let stop_order = text_order_of(stop_ids(gtfs.stops@));
    stops_keep_calendar(begun, feed, gtfs.stops@, stop_order, gtfs.stops@.len() as int);
    let stopped = with_stops(begun, feed, gtfs.stops@, stop_order, gtfs.stops@.len() as int)->Ok_0;
    let route_order = text_order_of(route_ids(gtfs.routes@));
    routes_keep_calendar(stopped.core, feed, gtfs.routes@, route_order, gtfs.routes@.len() as int);
    let routed = with_routes(stopped.core, feed, gtfs.routes@, route_order, gtfs.routes@.len() as int)->Ok_0;
    let shaped = CoreView { shapes: with_shapes(routed.core.shapes, feed.id@, gtfs.shapes@, gtfs.shapes@.len() as int), ..routed.core };
    trips_keep_calendar(shaped, feed, gtfs.trips@, text_order_of(trip_ids(gtfs.trips@)), stopped.local, routed.local, gtfs.trips@.len() as int);
}

/// Whether no two feeds have the same id, and no id has a colon.
pub open spec fn feeds_told_apart(feeds: Seq<FeedConfig>) -> bool {
    &&& forall|i: int| 0 <= i < feeds.len() ==> !(#[trigger] feeds[i]).id@.contains(':')
    &&& forall|i: int, j: int| 0 <= i < j < feeds.len() ==> (#[trigger] feeds[i]).id@ != (#[trigger] feeds[j]).id@
}

proof fn feeds_run_their_services(feeds: Seq<FeedConfig>, parsed: Seq<GtfsFeed>, n: int, f: int, day: i32, service_id: Seq<char>)
    requires
        feeds.len() == parsed.len(),
        0 <= n <= feeds.len(),
        0 <= f < feeds.len(),
        feeds_told_apart(feeds),
        core_of(feeds, parsed, n) is Ok,
    ensures
        ({
            let runs = services_on(core_of(feeds, parsed, n)->Ok_0.calendar, day).contains(namespaced(feeds[f].id@, service_id));
            let exceptions = parsed[f].exceptions@;
            &&& n <= f ==> !runs
            &&& f < n ==> (forall|e: int| #[trigger] last_exception_for(exceptions, service_id, day as int, e) ==> runs == exceptions[e].added)
            &&& f < n && no_exception_for(exceptions, service_id, day as int) ==> runs == some_rule_is_for(parsed[f].calendar@, service_id, day as int)
        }),
    decreases n,
{
    if n > 0 {
        let before = core_of(feeds, parsed, n - 1)->Ok_0;
        let feed = feeds[n - 1];
        let gtfs = parsed[n - 1];
        feeds_run_their_services(feeds, parsed, n - 1, f, day, service_id);
        feed_adds_its_calendar(before, feed, gtfs);
        let service = namespaced(feeds[f].id@, service_id);
        if f == n - 1 {
            services_run_on_their_days(before.calendar, feed.id@, gtfs, day, service_id);
        } else {
            assert forall|local: Seq<char>| service != #[trigger] namespaced(feed.id@, local) by {
                if service == namespaced(feed.id@, local) {
                    namespacing_is_injective(feeds[f].id@, service_id, feed.id@, local);
                }
            }
            let rules = gtfs.calendar@;
            rule_leaves(before.calendar, feed.id@, rules, rules.len() as int, day, service);
            exceptions_leave(with_rules(before.calendar, feed.id@, rules, rules.len() as int), feed.id@, gtfs.exceptions@, gtfs.exceptions@.len() as int, day, service);
        }
    }
}

/// In a timetable built from feeds a service runs on exactly the days that its feed says:
/// where the last exception for the day adds it, and where there is none, where one of
/// its rules is for the day.
pub proof fn timetables_run_services_on_their_days(feeds: Seq<FeedConfig>, parsed: Seq<GtfsFeed>, f: int, day: i32, service_id: Seq<char>)
    requires
        feeds.len() == parsed.len(),
        0 <= f < feeds.len(),
        feeds_told_apart(feeds),
        core_of(feeds, parsed, feeds.len() as int) is Ok,
    ensures
        ({
            let calendar = core_of(feeds, parsed, feeds.len() as int)->Ok_0.calendar;
            let runs = services_on(calendar, day).contains(feeds[f].id@ + seq![':'] + service_id);
            let exceptions = parsed[f].exceptions@;
            &&& forall|e: int| #[trigger] last_exception_for(exceptions, service_id, day as int, e) ==> runs == exceptions[e].added
            &&& no_exception_for(exceptions, service_id, day as int) ==> runs == some_rule_is_for(parsed[f].calendar@, service_id, day as int)
        }),
{
    feeds_run_their_services(feeds, parsed, feeds.len() as int, f, day, service_id);
}

} // verus!
