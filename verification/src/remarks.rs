//! Comments: which of them stay when a document is edited.

use vstd::prelude::*;
use crate::node::Edit;

verus! {

/// A comment of a document, and where it stands.
#[verifier::ext_equal]
pub struct Remark {
    /// The comment as it is written, with what opens and closes it.
    pub text: Seq<char>,
    /// The names of the members that it stands in, from the outermost on.
    pub within: Seq<Seq<char>>,
    /// Whether it stands outside the value of the document.
    pub outside: bool,
    /// Where it stands between the members of an object, the name of the one before it.
    pub after: Option<Seq<char>>,
    /// Where it stands between the members of an object, the name of the one behind it.
    pub before: Option<Seq<char>>,
}

/// The texts of comments.
pub open spec fn remark_texts(remarks: Seq<Remark>) -> Seq<Seq<char>> {
    Seq::new(remarks.len(), |i: int| remarks[i].text)
}

/// Whether a comment stands in a member of the object that a path reaches.
pub open spec fn stands_in(remark: Remark, path: Seq<Seq<char>>, name: Seq<char>) -> bool {
    path.push(name).is_prefix_of(remark.within)
}

/// Whether a comment stands beside a member of the object that a path reaches.
pub open spec fn stands_beside(remark: Remark, path: Seq<Seq<char>>, name: Seq<char>) -> bool {
    remark.within == path && (remark.after == Some(name) || remark.before == Some(name))
}

/// Whether an edit leaves a comment as it is: the comment does not stand in what is changed, nor
/// beside what is taken away.
pub open spec fn spares(edit: Edit, remark: Remark) -> bool {
    match edit {
        Edit::MakeRoot => remark.outside,
        Edit::MakeObject { path, name } => !stands_in(remark, path, name),
        Edit::SetMember { path, name, value } => !stands_in(remark, path, name),
        Edit::AppendMember { path, name, value } => true,
        Edit::RemoveMember { path, name } => !stands_in(remark, path, name) && !stands_beside(
            remark,
            path,
            name,
        ),
    }
}

/// Whether an edit may put a member of a name behind the others of an object.
pub open spec fn puts(edit: Edit, within: Seq<Seq<char>>, member: Seq<char>) -> bool {
    match edit {
        Edit::MakeObject { path, name } => path == within && name == member,
        Edit::AppendMember { path, name, value } => path == within && name == member,
        _ => false,
    }
}

/// What a comment is after an edit that left it as it is. A member that is put behind the others
/// may stand before or behind a comment that no member stood behind.
pub open spec fn follows(edit: Edit, remark: Remark, later: Remark) -> bool {
    &&& later.text == remark.text
    &&& later.within == remark.within
    &&& later.outside == remark.outside
    &&& {
        ||| later.after == remark.after && later.before == remark.before
        ||| remark.before is None && later.after == remark.after && later.before is Some && puts(
            edit,
            remark.within,
            later.before->0,
        )
        ||| remark.before is None && later.before is None && later.after is Some && puts(
            edit,
            remark.within,
            later.after->0,
        )
    }
}

/// The places at which comments stand after an edit, for each comment that it left as it is.
pub open spec fn carries_to(
    edit: Edit,
    first: Seq<Remark>,
    last: Seq<Remark>,
    places: Seq<int>,
) -> bool {
    &&& places.len() == first.len()
    &&& forall|i: int|
        #![trigger first[i]]
        #![trigger places[i]]
        0 <= i < first.len() && spares(edit, first[i]) ==> 0 <= places[i] < last.len() && follows(
            edit,
            first[i],
            last[places[i]],
        )
    &&& forall|i: int, j: int|
        #![trigger places[i], places[j]]
        0 <= i < j < first.len() && spares(edit, first[i]) && spares(edit, first[j]) ==> places[i]
            < places[j]
}

/// The comments of a document after an edit: those that it left as they are are still there, in
/// their order.
pub open spec fn carries(edit: Edit, first: Seq<Remark>, last: Seq<Remark>) -> bool {
    exists|places: Seq<int>| carries_to(edit, first, last, places)
}

/// The comments of a document after a row of edits.
pub open spec fn carried(edits: Seq<Edit>, first: Seq<Remark>, last: Seq<Remark>) -> bool
    decreases edits.len(),
{
    if edits.len() == 0 {
        first == last
    } else {
        exists|middle: Seq<Remark>|
            carried(edits.drop_last(), first, middle) && #[trigger] carries(
                edits.last(),
                middle,
                last,
            )
    }
}

/// What one row of edits carries on, a second one carries on further.
pub proof fn lemma_carried(
    before: Seq<Edit>,
    after: Seq<Edit>,
    first: Seq<Remark>,
    middle: Seq<Remark>,
    last: Seq<Remark>,
)
    requires
        carried(before, first, middle),
        carried(after, middle, last),
    ensures
        carried(before + after, first, last),
    decreases after.len(),
{
    let whole = before + after;
    if after.len() == 0 {
        assert(whole =~= before);
    } else {
        let near = choose|near: Seq<Remark>|
            carried(after.drop_last(), middle, near) && #[trigger] carries(
                after.last(),
                near,
                last,
            );
        lemma_carried(before, after.drop_last(), first, middle, near);
        assert(whole.drop_last() =~= before + after.drop_last());
        assert(whole.last() == after.last());
        assert(carries(whole.last(), near, last));
    }
}

/// The comments that are as asked stand in a text, one behind the other, at these places.
pub open spec fn stand_at(
    text: Seq<char>,
    remarks: Seq<Remark>,
    asked: spec_fn(Remark) -> bool,
    spots: Seq<int>,
) -> bool {
    &&& spots.len() == remarks.len()
    &&& forall|i: int|
        #![trigger remarks[i]]
        #![trigger spots[i]]
        0 <= i < remarks.len() && asked(remarks[i]) ==> 0 <= spots[i] && spots[i]
            + remarks[i].text.len() <= text.len() && text.subrange(
            spots[i],
            spots[i] + remarks[i].text.len(),
        ) == remarks[i].text
    &&& forall|i: int, j: int|
        #![trigger spots[i], spots[j]]
        0 <= i < j < remarks.len() && asked(remarks[i]) && asked(remarks[j]) ==> spots[i]
            + remarks[i].text.len() <= spots[j]
}

/// The comments that are as asked stand in a text, one behind the other.
#[verifier::opaque]
pub open spec fn stand(
    text: Seq<char>,
    remarks: Seq<Remark>,
    asked: spec_fn(Remark) -> bool,
) -> bool {
    exists|spots: Seq<int>| stand_at(text, remarks, asked, spots)
}

/// All comments stand in a text, one behind the other.
pub open spec fn all_stand(text: Seq<char>, remarks: Seq<Remark>) -> bool {
    stand(text, remarks, |remark: Remark| true)
}

/// Whether one of the edits may put a member of a name behind the others of an object.
pub open spec fn put_before(
    edits: Seq<Edit>,
    within: Seq<Seq<char>>,
    member: Seq<char>,
) -> bool {
    exists|i: int| 0 <= i < edits.len() && puts(#[trigger] edits[i], within, member)
}

/// Whether a row of edits leaves a comment as it is. A member that was put behind the others may
/// stand beside it: it may not be taken away again.
pub open spec fn stays(edits: Seq<Edit>, remark: Remark) -> bool
    decreases edits.len(),
{
    edits.len() == 0 || {
        &&& stays(edits.drop_last(), remark)
        &&& spares(edits.last(), remark)
        &&& edits.last() matches Edit::RemoveMember { path, name } ==> remark.within != path
            || !put_before(edits.drop_last(), path, name)
    }
}

/// The comments that a row of edits leaves as they are.
pub open spec fn staying(edits: Seq<Edit>) -> spec_fn(Remark) -> bool {
    |remark: Remark| stays(edits, remark)
}

/// A comment after a row of edits that left it as it is: only a member that was put there may
/// stand beside it now.
spec fn remains(edits: Seq<Edit>, remark: Remark, later: Remark) -> bool {
    &&& later.text == remark.text
    &&& later.within == remark.within
    &&& later.outside == remark.outside
    &&& later.after == remark.after || (later.after is Some && put_before(
        edits,
        remark.within,
        later.after->0,
    ))
    &&& later.before == remark.before || (later.before is Some && put_before(
        edits,
        remark.within,
        later.before->0,
    ))
}

spec fn remain_at(
    edits: Seq<Edit>,
    first: Seq<Remark>,
    last: Seq<Remark>,
    places: Seq<int>,
) -> bool {
    &&& places.len() == first.len()
    &&& forall|i: int|
        #![trigger first[i]]
        #![trigger places[i]]
        0 <= i < first.len() && stays(edits, first[i]) ==> 0 <= places[i] < last.len() && remains(
            edits,
            first[i],
            last[places[i]],
        )
    &&& forall|i: int, j: int|
        #![trigger places[i], places[j]]
        0 <= i < j < first.len() && stays(edits, first[i]) && stays(edits, first[j]) ==> places[i]
            < places[j]
}

proof fn lemma_put_before(edits: Seq<Edit>, within: Seq<Seq<char>>, member: Seq<char>)
    requires
        edits.len() > 0,
        put_before(edits.drop_last(), within, member) || puts(edits.last(), within, member),
    ensures
        put_before(edits, within, member),
{
    let rest = edits.drop_last();
    if put_before(rest, within, member) {
        let i = choose|i: int| 0 <= i < rest.len() && puts(#[trigger] rest[i], within, member);
        assert(puts(edits[i], within, member));
    } else {
        assert(puts(edits[edits.len() - 1], within, member));
    }
}

/// A comment that remains after some edits remains after one more that leaves it.
proof fn lemma_remains(edits: Seq<Edit>, remark: Remark, near: Remark, later: Remark)
    requires
        edits.len() > 0,
        remains(edits.drop_last(), remark, near),
        follows(edits.last(), near, later),
    ensures
        remains(edits, remark, later),
{
    let rest = edits.drop_last();
    if later.after is Some && (put_before(rest, remark.within, later.after->0) || puts(
        edits.last(),
        remark.within,
        later.after->0,
    )) {
        lemma_put_before(edits, remark.within, later.after->0);
    }
    if later.before is Some && (put_before(rest, remark.within, later.before->0) || puts(
        edits.last(),
        remark.within,
        later.before->0,
    )) {
        lemma_put_before(edits, remark.within, later.before->0);
    }
}

/// The comments that a row of edits leaves as they are remain, in their order.
proof fn lemma_remain(edits: Seq<Edit>, first: Seq<Remark>, last: Seq<Remark>) -> (places: Seq<int>)
    requires
        carried(edits, first, last),
    ensures
        remain_at(edits, first, last, places),
    decreases edits.len(),
{
    if edits.len() == 0 {
        Seq::new(first.len(), |i: int| i)
    } else {
        let rest = edits.drop_last();
        let edit = edits.last();
        let middle = choose|middle: Seq<Remark>|
            carried(rest, first, middle) && #[trigger] carries(edit, middle, last);
        let near = lemma_remain(rest, first, middle);
        let far = choose|far: Seq<int>| carries_to(edit, middle, last, far);
        let places = Seq::new(first.len(), |i: int| far[near[i]]);
        assert forall|i: int|
            #![trigger first[i]]
            #![trigger places[i]]
            0 <= i < first.len() && stays(edits, first[i]) implies 0 <= near[i] < middle.len()
            && spares(edit, middle[near[i]]) && 0 <= places[i] < last.len() && remains(
            edits,
            first[i],
            last[places[i]],
        ) by {
            let remark = first[i];
            assert(stays(rest, remark));
            let then = middle[near[i]];
            assert(remains(rest, remark, then));
            assert(spares(edit, then));
            assert(far[near[i]] == places[i]);
            assert(follows(edit, then, last[places[i]]));
            lemma_remains(edits, remark, then, last[places[i]]);
        }
        assert forall|i: int, j: int|
            #![trigger places[i], places[j]]
            0 <= i < j < first.len() && stays(edits, first[i]) && stays(
                edits,
                first[j],
            ) implies places[i] < places[j] by {
            assert(stays(rest, first[i]) && stays(rest, first[j]));
            assert(near[i] < near[j]);
            assert(spares(edit, middle[near[i]]) && spares(edit, middle[near[j]]));
            assert(far[near[i]] < far[near[j]]);
        }
        places
    }
}

/// A comment that stands neither in a member that the edits change nor beside one that they take
/// away stands in the text after the edits, and all these comments stand there in their order.
pub proof fn lemma_comments_stay(
    text: Seq<char>,
    edits: Seq<Edit>,
    first: Seq<Remark>,
    last: Seq<Remark>,
)
    requires
        carried(edits, first, last),
        all_stand(text, last),
    ensures
        stand(text, first, staying(edits)),
{
    reveal(stand);
    let all = |remark: Remark| true;
    let places = lemma_remain(edits, first, last);
    let found = choose|found: Seq<int>| stand_at(text, last, all, found);
    let spots = Seq::new(first.len(), |i: int| found[places[i]]);
    assert forall|i: int|
        #![trigger first[i]]
        #![trigger spots[i]]
        0 <= i < first.len() && staying(edits)(first[i]) implies 0 <= spots[i] && spots[i]
        + first[i].text.len() <= text.len() && text.subrange(
        spots[i],
        spots[i] + first[i].text.len(),
    ) == first[i].text by {
        assert(remains(edits, first[i], last[places[i]]));
        assert(all(last[places[i]]));
    }
    assert forall|i: int, j: int|
        #![trigger spots[i], spots[j]]
        0 <= i < j < first.len() && staying(edits)(first[i]) && staying(edits)(
            first[j],
        ) implies spots[i] + first[i].text.len() <= spots[j] by {
        assert(remains(edits, first[i], last[places[i]]));
        assert(remains(edits, first[j], last[places[j]]));
        assert(places[i] < places[j]);
        assert(all(last[places[i]]) && all(last[places[j]]));
        assert(found[places[i]] + last[places[i]].text.len() <= found[places[j]]);
    }
    assert(stand_at(text, first, staying(edits), spots));
}

} // verus!
