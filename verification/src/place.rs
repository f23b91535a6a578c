//! Places: a setting in a profile, and the order in which places are taken.

use vstd::prelude::*;
use crate::table::{first_of, in_order, lemma_first_of, lists};
use crate::text::{lemma_precedes_asymmetric, precedes};

verus! {

/// A setting in a profile.
#[verifier::ext_equal]
pub struct Place {
    pub profile: Seq<char>,
    pub setting: Seq<char>,
}

/// One place comes before another: by the profile, then by the setting.
pub open spec fn before(a: Place, b: Place) -> bool {
    precedes(a.profile, b.profile) || (a.profile == b.profile && precedes(a.setting, b.setting))
}

/// `places` holds the members of `set` in their order, each once.
pub open spec fn ranked(places: Seq<Place>, set: Set<Place>) -> bool {
    &&& forall|i: int, j: int|
        #![trigger places[i], places[j]]
        0 <= i < j < places.len() ==> before(places[i], places[j])
    &&& forall|place: Place| #[trigger] set.contains(place) <==> places.contains(place)
}

/// A place does not come before itself.
pub proof fn lemma_before_irreflexive(a: Place)
    ensures
        !before(a, a),
{
    if precedes(a.profile, a.profile) {
        lemma_precedes_asymmetric(a.profile, a.profile);
    }
    if precedes(a.setting, a.setting) {
        lemma_precedes_asymmetric(a.setting, a.setting);
    }
}

/// Of two places at most one comes before the other.
pub proof fn lemma_before_asymmetric(a: Place, b: Place)
    requires
        before(a, b),
    ensures
        !before(b, a),
{
    if precedes(a.profile, b.profile) {
        lemma_precedes_asymmetric(a.profile, b.profile);
        if a.profile == b.profile {
            lemma_precedes_asymmetric(a.profile, a.profile);
        }
    } else {
        lemma_precedes_asymmetric(a.setting, b.setting);
        if precedes(b.profile, a.profile) {
            lemma_precedes_asymmetric(b.profile, a.profile);
        }
    }
}

/// A set of places has one ranked list.
pub proof fn law_ranked_once(a: Seq<Place>, b: Seq<Place>, set: Set<Place>)
    requires
        ranked(a, set),
        ranked(b, set),
    ensures
        a == b,
    decreases a.len(),
{
    if a.len() == 0 {
        if b.len() > 0 {
            assert(b.contains(b[0]));
            assert(set.contains(b[0]));
        }
        assert(a =~= b);
    } else {
        let x = a.last();
        assert(a.contains(x));
        assert(set.contains(x));
        assert(b.contains(x));
        let j = choose|j: int| 0 <= j < b.len() && b[j] == x;
        let y = b.last();
        assert(b.contains(y));
        assert(set.contains(y));
        assert(a.contains(y));
        let i = choose|i: int| 0 <= i < a.len() && a[i] == y;
        if x != y {
            assert(before(b[j], b[b.len() - 1]));
            assert(before(a[i], a[a.len() - 1]));
            lemma_before_asymmetric(x, y);
        }
        lemma_ranked_shorter(a, set);
        lemma_ranked_shorter(b, set);
        law_ranked_once(a.drop_last(), b.drop_last(), set.remove(x));
        assert(a =~= a.drop_last().push(x));
        assert(b =~= b.drop_last().push(x));
    }
}

/// A ranked list without its last place ranks the set without it.
proof fn lemma_ranked_shorter(places: Seq<Place>, set: Set<Place>)
    requires
        ranked(places, set),
        places.len() > 0,
    ensures
        ranked(places.drop_last(), set.remove(places.last())),
{
    let shorter = places.drop_last();
    let rest = set.remove(places.last());
    assert forall|place: Place| #[trigger] rest.contains(place) <==> shorter.contains(place) by {
        if rest.contains(place) {
            assert(set.contains(place));
            assert(places.contains(place));
            let i = choose|i: int| 0 <= i < places.len() && places[i] == place;
            assert(shorter[i] == place);
        }
        if shorter.contains(place) {
            let i = choose|i: int| 0 <= i < shorter.len() && shorter[i] == place;
            assert(places[i] == place);
            assert(places.contains(place));
            assert(set.contains(place));
            if place == places.last() {
                lemma_ranked_distinct(places, set, i, places.len() - 1);
            }
        }
    }
}

/// No place stands twice in a ranked list.
pub proof fn lemma_ranked_distinct(places: Seq<Place>, set: Set<Place>, i: int, j: int)
    requires
        ranked(places, set),
        0 <= i < places.len(),
        0 <= j < places.len(),
        places[i] == places[j],
    ensures
        i == j,
{
    lemma_before_irreflexive(places[i]);
}

/// The places that a walk has passed: those of the first `i` profiles, and of
/// the next profile the first `j` settings.
pub open spec fn passed(
    profiles: Seq<Seq<char>>,
    i: int,
    settings: Seq<Seq<char>>,
    j: int,
) -> Set<Place> {
    Set::new(
        |place: Place|
            first_of(profiles, i).contains(place.profile) || (i < profiles.len() && place.profile
                == profiles[i] && first_of(settings, j).contains(place.setting)),
    )
}

/// The next place of a walk extends the ranked list of what it has passed.
pub proof fn lemma_pass(
    places: Seq<Place>,
    set: Set<Place>,
    profiles: Seq<Seq<char>>,
    i: int,
    settings: Seq<Seq<char>>,
    j: int,
)
    requires
        in_order(profiles),
        in_order(settings),
        0 <= i < profiles.len(),
        0 <= j < settings.len(),
        ranked(places, set.intersect(passed(profiles, i, settings, j))),
    ensures
        ({
            let next = Place { profile: profiles[i], setting: settings[j] };
            let more = if set.contains(next) {
                places.push(next)
            } else {
                places
            };
            ranked(more, set.intersect(passed(profiles, i, settings, j + 1)))
        }),
{
    let next = Place { profile: profiles[i], setting: settings[j] };
    let old_set = set.intersect(passed(profiles, i, settings, j));
    let new_set = set.intersect(passed(profiles, i, settings, j + 1));
    lemma_first_of(settings, j);
    lemma_first_of(profiles, i);
    if set.contains(next) {
        let more = places.push(next);
        assert(new_set =~= old_set.insert(next));
        assert forall|place: Place| #[trigger] new_set.contains(place) <==> more.contains(place) by {
            if new_set.contains(place) {
                if place == next {
                    assert(more[places.len() as int] == next);
                } else {
                    assert(places.contains(place));
                    let n = choose|n: int| 0 <= n < places.len() && places[n] == place;
                    assert(more[n] == place);
                }
            }
            if more.contains(place) {
                let n = choose|n: int| 0 <= n < more.len() && more[n] == place;
                if n < places.len() {
                    assert(places[n] == place);
                    assert(old_set.contains(place));
                }
            }
        }
        assert forall|a: int, b: int|
            #![trigger more[a], more[b]]
            0 <= a < b < more.len() implies before(more[a], more[b]) by {
            if b < places.len() {
                assert(before(places[a], places[b]));
            } else {
                assert(places.contains(places[a]));
                assert(old_set.contains(places[a]));
                lemma_passed_before(profiles, i, settings, j, places[a]);
            }
        }
    } else {
        assert(new_set =~= old_set);
    }
}

proof fn lemma_passed_before(
    profiles: Seq<Seq<char>>,
    i: int,
    settings: Seq<Seq<char>>,
    j: int,
    place: Place,
)
    requires
        in_order(profiles),
        in_order(settings),
        0 <= i < profiles.len(),
        0 <= j < settings.len(),
        passed(profiles, i, settings, j).contains(place),
    ensures
        before(place, Place { profile: profiles[i], setting: settings[j] }),
{
    if first_of(profiles, i).contains(place.profile) {
        let n = choose|n: int| 0 <= n < i && n < profiles.len() && profiles[n] == place.profile;
        assert(precedes(profiles[n], profiles[i]));
    } else {
        let n = choose|n: int| 0 <= n < j && n < settings.len() && settings[n] == place.setting;
        assert(precedes(settings[n], settings[j]));
    }
}

/// After the last setting of a profile the walk stands before the next profile.
pub proof fn lemma_pass_profile(
    set: Set<Place>,
    profiles: Seq<Seq<char>>,
    i: int,
    settings: Seq<Seq<char>>,
    names: Set<Seq<char>>,
    next: Seq<Seq<char>>,
)
    requires
        in_order(profiles),
        lists(settings, names),
        0 <= i < profiles.len(),
        forall|place: Place| #[trigger]
            set.contains(place) && place.profile == profiles[i] ==> names.contains(place.setting),
    ensures
        set.intersect(passed(profiles, i, settings, settings.len() as int)) == set.intersect(
            passed(profiles, i + 1, next, 0),
        ),
{
    lemma_first_of(profiles, i);
    crate::table::lemma_first_of_ends(settings, names);
    assert(set.intersect(passed(profiles, i, settings, settings.len() as int)) =~= set.intersect(
        passed(profiles, i + 1, next, 0),
    ));
}

/// A walk begins with nothing passed and ends with everything passed.
pub proof fn lemma_pass_ends(
    set: Set<Place>,
    profiles: Seq<Seq<char>>,
    names: Set<Seq<char>>,
    settings: Seq<Seq<char>>,
)
    requires
        lists(profiles, names),
        forall|place: Place| #[trigger] set.contains(place) ==> names.contains(place.profile),
    ensures
        set.intersect(passed(profiles, 0, settings, 0)) == Set::<Place>::empty(),
        set.intersect(passed(profiles, profiles.len() as int, settings, 0)) == set,
{
    crate::table::lemma_first_of_ends(profiles, names);
    assert(set.intersect(passed(profiles, 0, settings, 0)) =~= Set::<Place>::empty());
    assert(set.intersect(passed(profiles, profiles.len() as int, settings, 0)) =~= set);
}

} // verus!
