//! The tag classifier: a pure function from a tag set to a `Kind`. The rules
//! are mutually exclusive by priority, evaluated top to bottom, first match
//! wins.

use vstd::prelude::*;
use crate::tags::{Tags, tag_is, tag_has};

verus! {

/// The tagging-quality classification of a way.
#[derive(Clone, Copy, Debug, PartialEq, Eq, Hash, Structural)]
pub enum Kind {
    /// A road with some hint of separate sidewalks (maybe not consistent or
    /// complete)
    RoadWithSeparate,
    /// A road with tagged sidewalks on at least one side
    RoadWithTags,
    /// A road tagged as having no sidewalks
    RoadWithoutSidewalksExplicit,
    /// A road assumed to have no sidewalks
    RoadWithoutSidewalksImplicit,
    /// A road missing sidewalk info completely
    RoadUnknown,
    /// A separately mapped sidewalk
    Sidewalk,
    Crossing,
    /// A non-sidewalk footway, a cycleway, or something else
    Other,
}

/// Rule (a): explicit sidewalk-footway tagging.
pub open spec fn spec_is_sidewalk(t: Seq<(Seq<char>, Seq<char>)>) -> bool {
    tag_is(t, "highway"@, "footway"@) && tag_is(t, "footway"@, "sidewalk"@)
}

/// Rule (b): explicit crossing tagging on a footway or cycleway.
pub open spec fn spec_is_crossing(t: Seq<(Seq<char>, Seq<char>)>) -> bool {
    (tag_is(t, "highway"@, "footway"@) && tag_is(t, "footway"@, "crossing"@)) || (tag_is(
        t,
        "highway"@,
        "cycleway"@,
    ) && tag_is(t, "cycleway"@, "crossing"@))
}

/// Rule (c): non-sidewalk path-like highway tags.
pub open spec fn spec_is_path_like(t: Seq<(Seq<char>, Seq<char>)>) -> bool {
    ||| tag_is(t, "highway"@, "corridor"@)
    ||| tag_is(t, "highway"@, "cycleway"@)
    ||| tag_is(t, "highway"@, "footway"@)
    ||| tag_is(t, "highway"@, "path"@)
    ||| tag_is(t, "highway"@, "pedestrian"@)
    ||| tag_is(t, "highway"@, "platform"@)
    ||| tag_is(t, "highway"@, "steps"@)
    ||| tag_is(t, "highway"@, "track"@)
}

/// Rule (d): explicitly tagged as having no sidewalk.
pub open spec fn spec_explicit_no_sidewalk(t: Seq<(Seq<char>, Seq<char>)>) -> bool {
    ||| tag_is(t, "sidewalk"@, "no"@)
    ||| tag_is(t, "sidewalk"@, "none"@)
    ||| tag_is(t, "sidewalk:both"@, "no"@)
    ||| tag_is(t, "sidewalk:both"@, "none"@)
}

/// Rule (e): "separate" tagging on any side.
pub open spec fn spec_any_separate(t: Seq<(Seq<char>, Seq<char>)>) -> bool {
    ||| tag_is(t, "sidewalk:both"@, "separate"@)
    ||| tag_is(t, "sidewalk:left"@, "separate"@)
    ||| tag_is(t, "sidewalk:right"@, "separate"@)
    ||| tag_is(t, "sidewalk"@, "separate"@)
}

/// Rule (f): any sidewalk tagging at all, including yes/no per side.
pub open spec fn spec_has_sidewalk_tags(t: Seq<(Seq<char>, Seq<char>)>) -> bool {
    ||| tag_has(t, "sidewalk"@)
    ||| tag_is(t, "sidewalk:both"@, "yes"@)
    ||| tag_is(t, "sidewalk:both"@, "no"@)
    ||| tag_is(t, "sidewalk:left"@, "yes"@)
    ||| tag_is(t, "sidewalk:left"@, "no"@)
    ||| tag_is(t, "sidewalk:right"@, "yes"@)
    ||| tag_is(t, "sidewalk:right"@, "no"@)
}

/// Rule (g): highway classes that imply no sidewalks by convention.
pub open spec fn spec_implicit_no_sidewalk(t: Seq<(Seq<char>, Seq<char>)>) -> bool {
    ||| tag_is(t, "highway"@, "motorway"@)
    ||| tag_is(t, "highway"@, "motorway_link"@)
    ||| tag_is(t, "highway"@, "service"@)
}

/// The classification rules as one total function of the tag set: rules (a)
/// through (g) in priority order, else `RoadUnknown`.
pub open spec fn spec_classify(t: Seq<(Seq<char>, Seq<char>)>) -> Kind {
    if spec_is_sidewalk(t) {
        Kind::Sidewalk
    } else if spec_is_crossing(t) {
        Kind::Crossing
    } else if spec_is_path_like(t) {
        Kind::Other
    } else if spec_explicit_no_sidewalk(t) {
        Kind::RoadWithoutSidewalksExplicit
    } else if spec_any_separate(t) {
        Kind::RoadWithSeparate
    } else if spec_has_sidewalk_tags(t) {
        Kind::RoadWithTags
    } else if spec_implicit_no_sidewalk(t) {
        Kind::RoadWithoutSidewalksImplicit
    } else {
        Kind::RoadUnknown
    }
}

impl Kind {
    /// Classify a tag set. Total and deterministic: the result is exactly
    /// `spec_classify` of the tags, for every tag set.
    pub fn classify(tags: &Tags) -> (r: Kind)
        ensures
            r == spec_classify(tags@),
    {
        if tags.is("highway", "footway") && tags.is("footway", "sidewalk") {
            return Kind::Sidewalk;
        }
        if tags.is("highway", "footway") && tags.is("footway", "crossing") {
            return Kind::Crossing;
        }
        if tags.is("highway", "cycleway") && tags.is("cycleway", "crossing") {
            return Kind::Crossing;
        }
        if tags.is("highway", "corridor") || tags.is("highway", "cycleway") || tags.is(
            "highway",
            "footway",
        ) || tags.is("highway", "path") || tags.is("highway", "pedestrian") || tags.is(
            "highway",
            "platform",
        ) || tags.is("highway", "steps") || tags.is("highway", "track") {
            return Kind::Other;
        }
        if tags.is("sidewalk", "no") || tags.is("sidewalk", "none") || tags.is("sidewalk:both", "no")
            || tags.is("sidewalk:both", "none") {
            return Kind::RoadWithoutSidewalksExplicit;
        }
        if tags.is("sidewalk:both", "separate") || tags.is("sidewalk:left", "separate") || tags.is(
            "sidewalk:right",
            "separate",
        ) || tags.is("sidewalk", "separate") {
            return Kind::RoadWithSeparate;
        }
        if tags.has("sidewalk") || tags.is("sidewalk:both", "yes") || tags.is("sidewalk:both", "no")
            || tags.is("sidewalk:left", "yes") || tags.is("sidewalk:left", "no") || tags.is(
            "sidewalk:right",
            "yes",
        ) || tags.is("sidewalk:right", "no") {
            return Kind::RoadWithTags;
        }
        if tags.is("highway", "motorway") || tags.is("highway", "motorway_link") || tags.is(
            "highway",
            "service",
        ) {
            return Kind::RoadWithoutSidewalksImplicit;
        }
        Kind::RoadUnknown
    }

    /// Is this some kind of road, as opposed to a separately mapped footway?
    pub open spec fn spec_is_road(self) -> bool {
        match self {
            Kind::RoadWithSeparate => true,
            Kind::RoadWithTags => true,
            Kind::RoadWithoutSidewalksExplicit => true,
            Kind::RoadWithoutSidewalksImplicit => true,
            Kind::RoadUnknown => true,
            Kind::Sidewalk => false,
            Kind::Crossing => false,
            Kind::Other => false,
        }
    }

    pub fn is_road(&self) -> (r: bool)
        ensures
            r == self.spec_is_road(),
    {
        match self {
            Kind::Sidewalk => false,
            Kind::Crossing => false,
            Kind::Other => false,
            _ => true,
        }
    }
}

} // verus!
