//! One recorded experience.

use crate::fingerprint::{encode, Fingerprint};
use crate::fixed::{clamp_signed, clamp_signed_to_unit, UNIT};
use vstd::prelude::*;

verus! {

/// The kinds of moment.
#[derive(Clone, Copy, Debug, PartialEq, Eq, Structural)]
pub enum MomentType {
    Encounter,
    Struggle,
    Breakthrough,
    Failure,
    IceCaked,
    MetaReflect,
}

/// How a moment felt: novelty, effort and satisfaction, each from zero to
/// one in millionths.
#[derive(Clone, Copy, Debug, PartialEq, Eq, Structural)]
pub struct Qualia {
    pub novelty: u32,
    pub effort: u32,
    pub satisfaction: u32,
}

impl Qualia {
    /// All three parts lie between zero and one.
    pub open spec fn in_range(self) -> bool {
        self.novelty <= UNIT && self.effort <= UNIT && self.satisfaction <= UNIT
    }

    /// Qualia of the given parts, each limited to the range from zero to one.
    pub fn new(novelty: i64, effort: i64, satisfaction: i64) -> (q: Qualia)
        ensures
            q.novelty == clamp_signed(novelty),
            q.effort == clamp_signed(effort),
            q.satisfaction == clamp_signed(satisfaction),
            q.in_range(),
    {
        Qualia {
            novelty: clamp_signed_to_unit(novelty),
            effort: clamp_signed_to_unit(effort),
            satisfaction: clamp_signed_to_unit(satisfaction),
        }
    }
}

/// One recorded experience: what happened, of which kind, and the
/// fingerprint by which it is found again.
#[derive(Debug)]
pub struct Moment {
    pub id: String,
    pub fingerprint: Fingerprint,
    pub moment_type: MomentType,
    pub content: String,
    pub qualia: Option<Qualia>,
    pub cycle: u64,
    /// The note under which the moment was frozen as canonical, if it was.
    pub frozen: Option<String>,
}

impl Moment {
    /// Records `content` under `id`; the fingerprint is the encoding of the content.
    pub fn new(
        id: &str,
        content: &str,
        moment_type: MomentType,
        qualia: Option<Qualia>,
        cycle: u64,
    ) -> (m: Moment)
        ensures
            m.id@ == id@,
            m.content@ == content@,
            m.fingerprint@ == encode(content@),
            m.moment_type == moment_type,
            m.qualia == qualia,
            m.cycle == cycle,
            m.frozen is None,
    {
        Moment {
            id: id.to_owned(),
            fingerprint: Fingerprint::from_content(content),
            moment_type,
            content: content.to_owned(),
            qualia,
            cycle,
            frozen: None,
        }
    }

    /// Whether the moment is a breakthrough.
    pub fn is_breakthrough(&self) -> (b: bool)
        ensures
            b == (self.moment_type == MomentType::Breakthrough),
    {
        self.moment_type == MomentType::Breakthrough
    }

    /// Whether the moment was frozen as canonical.
    pub fn is_frozen(&self) -> (b: bool)
        ensures
            b == (self.frozen is Some),
    {
        self.frozen.is_some()
    }

    /// Freezes the moment as canonical under `note`. Identity, fingerprint
    /// and everything else stay as they were.
    pub fn ice_cake(&mut self, note: &str)
        ensures
            final(self).frozen matches Some(text) && text@ == note@,
            final(self).id == old(self).id,
            final(self).fingerprint == old(self).fingerprint,
            final(self).moment_type == old(self).moment_type,
            final(self).content == old(self).content,
            final(self).qualia == old(self).qualia,
            final(self).cycle == old(self).cycle,
    {
        self.frozen = Some(note.to_owned());
    }
}

/// Whether two moments record the same: the same texts, fingerprint,
/// kind, qualia, cycle and freeze note.
pub open spec fn same_moment(a: Moment, b: Moment) -> bool {
    &&& a.id@ == b.id@
    &&& a.fingerprint@ == b.fingerprint@
    &&& a.moment_type == b.moment_type
    &&& a.content@ == b.content@
    &&& a.qualia == b.qualia
    &&& a.cycle == b.cycle
    &&& match (a.frozen, b.frozen) {
        (Some(x), Some(y)) => x@ == y@,
        (None, None) => true,
        _ => false,
    }
}

impl Clone for Moment {
    fn clone(&self) -> (m: Moment)
        ensures
            same_moment(m, *self),
    {
        let frozen = match &self.frozen {
            Some(text) => Some(text.clone()),
            None => None,
        };
        Moment {
            id: self.id.clone(),
            fingerprint: self.fingerprint.clone(),
            moment_type: self.moment_type,
            content: self.content.clone(),
            qualia: self.qualia,
            cycle: self.cycle,
            frozen,
        }
    }
}

} // verus!
