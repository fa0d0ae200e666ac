//! Plans for shaping text, and when one can be used again.

use smallvec::SmallVec;
use vstd::prelude::*;

verus! {

/// The direction of text.
#[derive(Copy, Clone, Debug, PartialEq, Eq, Structural)]
pub enum Direction {
    Invalid,
    LeftToRight,
    RightToLeft,
    TopToBottom,
    BottomToTop,
}

/// The script of text, as a tag.
#[derive(Copy, Clone, Debug, PartialEq, Eq, Structural)]
pub struct Script(pub u32);

/// The language of text, as a name.
#[derive(Clone, Debug)]
pub struct Language {
    pub name: Vec<u8>,
}

/// Where a feature that holds for the whole text starts.
pub const HB_FEATURE_GLOBAL_START: u32 = 0;

/// Where a feature that holds for the whole text ends.
pub const HB_FEATURE_GLOBAL_END: u32 = u32::MAX;

/// A feature with a value, and where in the text it holds.
#[derive(Copy, Clone, Debug, PartialEq, Eq, Structural)]
pub struct Feature {
    pub tag: u32,
    pub value: u32,
    pub start: u32,
    pub end: u32,
}

impl Feature {
    /// Whether the feature holds for the whole text.
    pub open spec fn global(&self) -> bool {
        self.start == HB_FEATURE_GLOBAL_START && self.end == HB_FEATURE_GLOBAL_END
    }

    pub fn is_global(&self) -> (r: bool)
        ensures
            r == self.global(),
    {
        self.start == HB_FEATURE_GLOBAL_START && self.end == HB_FEATURE_GLOBAL_END
    }
}

/// A list of features, held in `smallvec::SmallVec`: up to four without a place
/// of their own.
#[verifier::external_body]
pub struct UserFeatures {
    items: SmallVec<[Feature; 4]>,
}

/// The features that a list holds.
pub uninterp spec fn features_held(v: UserFeatures) -> Seq<Feature>;

/// `SmallVec::from_slice`: the items of the slice, in order.
#[verifier::external_body]
fn hold_features(features: &[Feature]) -> (r: UserFeatures)
    ensures
        features_held(r) == features@,
{
    UserFeatures { items: SmallVec::from_slice(features) }
}

/// `SmallVec::as_slice`: the items held, in order.
#[verifier::external_body]
fn held_features(v: &UserFeatures) -> (r: &[Feature])
    ensures
        r@ == features_held(*v),
{
    v.items.as_slice()
}

/// Whether two features can share a plan: they set the same, and agree on
/// whether that is for the whole text. Where else they hold is not part of a
/// plan.
pub open spec fn same_feature(a: Feature, b: Feature) -> bool {
    a.tag == b.tag && a.value == b.value && a.global() == b.global()
}

/// Whether lists of features can share a plan.
pub open spec fn same_features(a: Seq<Feature>, b: Seq<Feature>) -> bool {
    a.len() == b.len() && forall|i: int| 0 <= i < a.len() ==> same_feature(#[trigger] a[i], b[i])
}

fn features_equivalent(a: &[Feature], b: &[Feature]) -> (r: bool)
    ensures
        r == same_features(a@, b@),
{
    if a.len() != b.len() {
        return false;
    }
    let mut i: usize = 0;
    while i < a.len()
        invariant
            i <= a@.len(),
            a@.len() == b@.len(),
            forall|k: int| 0 <= k < i ==> same_feature(#[trigger] a@[k], b@[k]),
        decreases a@.len() - i,
    {
        if a[i].tag != b[i].tag || a[i].value != b[i].value || a[i].is_global() != b[i].is_global() {
            assert(!same_feature(a@[i as int], b@[i as int]));
            return false;
        }
        i += 1;
    }
    true
}

/// A reusable plan for shaping text, as far as choosing one goes.
pub struct ShapePlan {
    pub direction: Direction,
    pub script: Option<Script>,
    pub language: Option<Language>,
    /// Which variations of the features the plan was made for, by table.
    pub feature_variations: [Option<u32>; 2],
    pub user_features: UserFeatures,
}

impl ShapePlan {
    /// A plan that can be used for any text with these properties.
    pub fn new(
        direction: Direction,
        script: Option<Script>,
        language: Option<Language>,
        feature_variations: [Option<u32>; 2],
        user_features: &[Feature],
    ) -> (r: ShapePlan)
        requires
            direction != Direction::Invalid,
        ensures
            r.direction == direction,
            r.script == script,
            r.language == language,
            r.feature_variations == feature_variations,
            features_held(r.user_features) == user_features@,
    {
        ShapePlan {
            direction,
            script,
            language,
            feature_variations,
            user_features: hold_features(user_features),
        }
    }

    /// The direction of the text.
    pub fn direction(&self) -> (r: Direction)
        ensures
            r == self.direction,
    {
        self.direction
    }

    /// The script of the text.
    pub fn script(&self) -> (r: Option<Script>)
        ensures
            r == self.script,
    {
        self.script
    }

    /// The language of the text.
    pub fn language(&self) -> (r: Option<&Language>)
        ensures
            r == (match self.language {
                Some(l) => Some(&l),
                None => None,
            }),
    {
        match &self.language {
            Some(l) => Some(l),
            None => None,
        }
    }
}

/// A key used for selecting a shape plan.
pub struct ShapePlanKey<'a> {
    pub script: Option<Script>,
    pub direction: Direction,
    pub language: Option<&'a Language>,
    pub feature_variations: [Option<u32>; 2],
    pub features: &'a [Feature],
}

/// A language by its name.
pub open spec fn named(l: Option<&Language>) -> Option<Seq<u8>> {
    match l {
        Some(l) => Some(l.name@),
        None => None,
    }
}

impl<'a> ShapePlanKey<'a> {
    /// Creates a new shape plan key with the given script and direction.
    pub fn new(script: Option<Script>, direction: Direction) -> (r: ShapePlanKey<'a>)
        ensures
            r.script == script,
            r.direction == direction,
            r.language is None,
            r.feature_variations@ == seq![None::<u32>, None],
            r.features@.len() == 0,
    {
        let r = ShapePlanKey {
            script,
            direction,
            language: None,
            feature_variations: [None, None],
            features: &[],
        };
        assert(r.feature_variations@ =~= seq![None::<u32>, None]);
        r
    }

    /// Sets the language to use for this shape plan key.
    pub fn language(self, language: Option<&'a Language>) -> (r: ShapePlanKey<'a>)
        ensures
            r == (ShapePlanKey { language, ..self }),
    {
        ShapePlanKey { language, ..self }
    }

    /// Sets the variations of features of an instance for this shape plan key;
    /// none without an instance.
    pub fn instance(self, feature_variations: Option<[Option<u32>; 2]>) -> (r: ShapePlanKey<'a>)
        ensures
            r.feature_variations@ == (match feature_variations {
                Some(v) => v@,
                None => seq![None::<u32>, None],
            }),
            r.script == self.script,
            r.direction == self.direction,
            r.language == self.language,
            r.features == self.features,
    {
        let variations: [Option<u32>; 2] = match feature_variations {
            Some(v) => v,
            None => [None, None],
        };
        assert(feature_variations is None ==> variations@ =~= seq![None::<u32>, None]);
        ShapePlanKey { feature_variations: variations, ..self }
    }

    /// Sets the features to use for this shape plan key.
    pub fn features(self, features: &'a [Feature]) -> (r: ShapePlanKey<'a>)
        ensures
            r == (ShapePlanKey { features, ..self }),
    {
        ShapePlanKey { features, ..self }
    }

    /// Whether this key selects a plan.
    pub open spec fn selects(&self, plan: ShapePlan) -> bool {
        &&& self.script == plan.script
        &&& self.direction == plan.direction
        &&& named(self.language) == named(
            match plan.language {
                Some(l) => Some(&l),
                None => None,
            },
        )
        &&& self.feature_variations@ == plan.feature_variations@
        &&& same_features(self.features@, features_held(plan.user_features))
    }

    /// Returns true if this key is a match for the given shape plan.
    pub fn matches(&self, plan: &ShapePlan) -> (r: bool)
        ensures
            r == self.selects(*plan),
    {
        let same_script = match (self.script, plan.script) {
            (Some(a), Some(b)) => a == b,
            (None, None) => true,
            _ => false,
        };
        let variations = &self.feature_variations;
        let same_variations = same_index(variations[0], plan.feature_variations[0]) && same_index(
            variations[1],
            plan.feature_variations[1],
        );
        proof {
            if same_variations {
                assert(self.feature_variations@ =~= plan.feature_variations@);
            }
        }
        same_script && self.direction == plan.direction && same_language(self.language, plan.language())
            && same_variations && features_equivalent(self.features, held_features(&plan.user_features))
    }
}

fn same_index(a: Option<u32>, b: Option<u32>) -> (r: bool)
    ensures
        r == (a == b),
{
    match (a, b) {
        (Some(a), Some(b)) => a == b,
        (None, None) => true,
        _ => false,
    }
}

fn same_language(a: Option<&Language>, b: Option<&Language>) -> (r: bool)
    ensures
        r == (named(a) == named(b)),
{
    match (a, b) {
        (Some(x), Some(y)) => {
            if x.name.len() != y.name.len() {
                return false;
            }
            let mut i: usize = 0;
            while i < x.name.len()
                invariant
                    i <= x.name@.len(),
                    x.name@.len() == y.name@.len(),
                    a == Some(x),
                    b == Some(y),
                    forall|k: int| 0 <= k < i ==> x.name@[k] == y.name@[k],
                decreases x.name@.len() - i,
            {
                if x.name[i] != y.name[i] {
                    assert(x.name@[i as int] != y.name@[i as int]);
                    return false;
                }
                i += 1;
            }
            assert(x.name@ =~= y.name@);
            true
        },
        (None, None) => true,
        _ => false,
    }
}

/// A key matches the plan made from the same properties.
pub proof fn a_key_matches_the_plan_of_the_same_properties(key: ShapePlanKey, plan: ShapePlan)
    requires
        key.script == plan.script,
        key.direction == plan.direction,
        plan.language matches Some(l) ==> key.language == Some(&l),
        plan.language is None ==> key.language is None,
        key.feature_variations@ == plan.feature_variations@,
        key.features@ == features_held(plan.user_features),
    ensures
        key.selects(plan),
{
}

/// A key with another direction, script or language does not match: a plan used
/// across those would shape with the wrong lookups.
pub proof fn a_key_of_other_text_does_not_match(key: ShapePlanKey, plan: ShapePlan)
    requires
        key.script != plan.script || key.direction != plan.direction || named(key.language) != named(
            match plan.language {
                Some(l) => Some(&l),
                None => None,
            },
        ),
    ensures
        !key.selects(plan),
{
}

/// Where a feature that is not for the whole text holds does not affect whether
/// a key matches.
pub proof fn where_a_feature_holds_does_not_matter(
    key: ShapePlanKey,
    other: ShapePlanKey,
    plan: ShapePlan,
)
    requires
        key.script == other.script,
        key.direction == other.direction,
        key.language == other.language,
        key.feature_variations@ == other.feature_variations@,
        key.features@.len() == other.features@.len(),
        forall|i: int|
            0 <= i < key.features@.len() ==> same_feature(#[trigger] key.features@[i], other.features@[i]),
    ensures
        key.selects(plan) == other.selects(plan),
{
    assert forall|i: int| 0 <= i < key.features@.len() implies same_feature(
        #[trigger] other.features@[i],
        key.features@[i],
    ) by {
        assert(same_feature(key.features@[i], other.features@[i]));
    }
    let held = features_held(plan.user_features);
    if same_features(key.features@, held) {
        assert(same_features(other.features@, held)) by {
            assert forall|i: int| 0 <= i < held.len() implies same_feature(
                #[trigger] other.features@[i],
                held[i],
            ) by {
                assert(same_feature(key.features@[i], held[i]));
            }
        }
    }
    if same_features(other.features@, held) {
        assert(same_features(key.features@, held)) by {
            assert forall|i: int| 0 <= i < held.len() implies same_feature(
                #[trigger] key.features@[i],
                held[i],
            ) by {
                assert(same_feature(other.features@[i], held[i]));
            }
        }
    }
}

/// A plan is selected exactly by a key of the same text and instance that asks
/// for the same: as many features, each with the tag and the value that the plan
/// has at its place, and for the whole text where the plan has it for that.
pub proof fn a_selected_plan_does_what_the_key_asks(key: ShapePlanKey, plan: ShapePlan)
    ensures
        key.selects(plan) ==> key.features@.len() == features_held(plan.user_features).len(),
        key.selects(plan) ==> forall|i: int|
            0 <= i < key.features@.len() ==> {
                let asked = #[trigger] key.features@[i];
                let held = features_held(plan.user_features)[i];
                &&& asked.tag == held.tag
                &&& asked.value == held.value
                &&& (asked.start == 0 && asked.end == u32::MAX) == (held.start == 0 && held.end
                    == u32::MAX)
            },
        key.selects(plan) ==> key.script == plan.script && key.direction == plan.direction,
        key.selects(plan) ==> (key.language is Some <==> plan.language is Some),
        key.selects(plan) && key.language is Some ==> key.language->0.name@ == plan.language->0.name@,
        key.selects(plan) ==> key.feature_variations@ == plan.feature_variations@,
{
    if key.selects(plan) {
        assert forall|i: int| 0 <= i < key.features@.len() implies {
            let asked = #[trigger] key.features@[i];
            let held = features_held(plan.user_features)[i];
            &&& asked.tag == held.tag
            &&& asked.value == held.value
            &&& (asked.start == 0 && asked.end == u32::MAX) == (held.start == 0 && held.end == u32::MAX)
        } by {
            assert(same_feature(key.features@[i], features_held(plan.user_features)[i]));
        }
    }
}

/// Where everything a plan rests on is the same, a key selects it, wherever in
/// the text the features hold that are not for all of it.
pub proof fn a_key_that_asks_the_same_selects_the_plan(key: ShapePlanKey, plan: ShapePlan)
    requires
        key.script == plan.script,
        key.direction == plan.direction,
        key.language is Some <==> plan.language is Some,
        key.language is Some ==> key.language->0.name@ == plan.language->0.name@,
        key.feature_variations@ == plan.feature_variations@,
        key.features@.len() == features_held(plan.user_features).len(),
        forall|i: int|
            0 <= i < key.features@.len() ==> {
                let asked = #[trigger] key.features@[i];
                let held = features_held(plan.user_features)[i];
                &&& asked.tag == held.tag
                &&& asked.value == held.value
                &&& (asked.start == 0 && asked.end == u32::MAX) == (held.start == 0 && held.end
                    == u32::MAX)
            },
    ensures
        key.selects(plan),
{
}

/// A key matches a plan if and only if everything that shaping rests on is the
/// same in both: the script, the direction, the language, the variations, and the
/// features, place by place, with their tags, their values and whether they hold
/// for all of the text.
pub proof fn a_match_is_of_everything_shaping_rests_on<'a>(key: &ShapePlanKey<'a>, plan: &ShapePlan, r: bool)
    requires
        call_ensures(ShapePlanKey::matches, (key, plan), r),
    ensures
        r <==> {
            &&& key.script == plan.script
            &&& key.direction == plan.direction
            &&& key.language is Some <==> plan.language is Some
            &&& key.language is Some ==> key.language->0.name@ == plan.language->0.name@
            &&& key.feature_variations@ == plan.feature_variations@
            &&& key.features@.len() == features_held(plan.user_features).len()
            &&& forall|i: int|
                0 <= i < key.features@.len() ==> {
                    let asked = #[trigger] key.features@[i];
                    let held = features_held(plan.user_features)[i];
                    &&& asked.tag == held.tag
                    &&& asked.value == held.value
                    &&& (asked.start == 0 && asked.end == u32::MAX) == (held.start == 0 && held.end
                        == u32::MAX)
                }
        },
{
    a_selected_plan_does_what_the_key_asks(*key, *plan);
    if key.script == plan.script && key.direction == plan.direction && (key.language is Some
        <==> plan.language is Some) && (key.language is Some ==> key.language->0.name@
        == plan.language->0.name@) && key.feature_variations@ == plan.feature_variations@
        && key.features@.len() == features_held(plan.user_features).len() && (forall|i: int|
        0 <= i < key.features@.len() ==> {
            let asked = #[trigger] key.features@[i];
            let held = features_held(plan.user_features)[i];
            &&& asked.tag == held.tag
            &&& asked.value == held.value
            &&& (asked.start == 0 && asked.end == u32::MAX) == (held.start == 0 && held.end == u32::MAX)
        }) {
        a_key_that_asks_the_same_selects_the_plan(*key, *plan);
    }
}

} // verus!
