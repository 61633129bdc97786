//! The rule tree: the in-memory representation of parsed RiveScript
//! documents.
//!
//! Each type carries a mathematical view (`TriggerV`, `TopicV`,
//! `ObjectV`, `AstV`) over sequences, sets and maps of characters, and
//! every mutating operation states its effect on that view.

use vstd::prelude::*;

use crate::strmap::{StrMap, StrSet};

verus! {

/// View of a trigger: its pattern, replies, raw conditions, redirect
/// target and previous-reply constraint, all as character sequences.
#[verifier::ext_equal]
pub ghost struct TriggerV {
    pub trigger: Seq<char>,
    pub reply: Seq<Seq<char>>,
    pub condition: Seq<Seq<char>>,
    pub redirect: Seq<char>,
    pub previous: Seq<char>,
}

/// A trigger with no pattern and nothing attached.
pub open spec fn empty_trigger() -> TriggerV {
    TriggerV {
        trigger: Seq::empty(),
        reply: Seq::empty(),
        condition: Seq::empty(),
        redirect: Seq::empty(),
        previous: Seq::empty(),
    }
}

/// Trigger represents a pattern that can match a user's message,
/// together with the candidate replies to send when it does.
#[derive(Debug)]
pub struct Trigger {
    pub trigger: String,
    pub reply: Vec<String>,
    pub condition: Vec<String>,
    pub redirect: String,
    pub previous: String,
}

impl DeepView for Trigger {
    type V = TriggerV;

    open spec fn deep_view(&self) -> TriggerV {
        TriggerV {
            trigger: self.trigger@,
            reply: self.reply.deep_view(),
            condition: self.condition.deep_view(),
            redirect: self.redirect@,
            previous: self.previous@,
        }
    }
}

impl Trigger {
    pub fn new(trigger: &str) -> (r: Self)
        ensures
            r.deep_view() == (TriggerV {
                trigger: trigger@,
                ..empty_trigger()
            }),
    {
        let r = Trigger {
            trigger: trigger.to_owned(),
            reply: Vec::new(),
            condition: Vec::new(),
            redirect: String::new(),
            previous: String::new(),
        };
        proof {
            assert(r.reply.deep_view() =~= Seq::<Seq<char>>::empty());
            assert(r.condition.deep_view() =~= Seq::<Seq<char>>::empty());
            assert(r.deep_view() =~= (TriggerV { trigger: trigger@, ..empty_trigger() }));
        }
        r
    }

    /// A trigger enters its topic only once it has a pattern.
    pub fn is_populated(&self) -> (r: bool)
        ensures
            r == (self.deep_view().trigger.len() > 0),
    {
        self.trigger.as_str().unicode_len() > 0
    }
}

impl Clone for Trigger {
    fn clone(&self) -> (r: Self)
        ensures
            r.deep_view() == self.deep_view(),
    {
        let r = Trigger {
            trigger: self.trigger.clone(),
            reply: clone_strings(&self.reply),
            condition: clone_strings(&self.condition),
            redirect: self.redirect.clone(),
            previous: self.previous.clone(),
        };
        proof {
            assert(r.deep_view() =~~= self.deep_view());
        }
        r
    }
}

pub(crate) fn clone_strings(v: &Vec<String>) -> (r: Vec<String>)
    ensures
        r.deep_view() == v.deep_view(),
{
    let n = v.len();
    let mut r: Vec<String> = Vec::new();
    let mut i: usize = 0;
    while i < n
        invariant
            n == v@.len(),
            i <= n,
            r.deep_view() =~= v.deep_view().take(i as int),
        decreases n - i,
    {
        let ghost rd0 = r.deep_view();
        let c = v[i].clone();
        assert(c@ == v@[i as int]@);
        r.push(c);
        proof {
            assert(rd0.len() == i);
            assert(r@.len() == i + 1);
            assert(r.deep_view().len() == i + 1);
            assert forall|j: int| 0 <= j < i + 1 implies r.deep_view()[j] == v.deep_view().take(
                i + 1 as int,
            )[j] by {
                if j < i {
                    assert(r.deep_view()[j] == rd0[j]);
                    assert(rd0[j] == v.deep_view().take(i as int)[j]);
                } else {
                    assert(r@[j] == c);
                    assert(r.deep_view()[j] == c@);
                }
            }
            assert(r.deep_view() =~~= v.deep_view().take(i + 1 as int));
        }
        i += 1;
    }
    assert(r.deep_view() =~~= v.deep_view());
    r
}

/// View of a topic: its triggers in order, and the names of the topics
/// it includes or inherits from.
#[verifier::ext_equal]
pub ghost struct TopicV {
    pub triggers: Seq<TriggerV>,
    pub includes: Set<Seq<char>>,
    pub inherits: Set<Seq<char>>,
}

/// A topic with no triggers and no relations.
pub open spec fn empty_topic() -> TopicV {
    TopicV { triggers: Seq::empty(), includes: Set::empty(), inherits: Set::empty() }
}

/// Topic is a group of triggers.  All triggers belong to a topic, the
/// default one being named "random"; a message can only match triggers
/// of the speaker's current topic or of topics it includes or inherits.
#[derive(Debug)]
pub struct Topic {
    pub triggers: Vec<Trigger>,
    pub includes: StrSet,
    pub inherits: StrSet,
}

impl DeepView for Topic {
    type V = TopicV;

    open spec fn deep_view(&self) -> TopicV {
        TopicV {
            triggers: self.triggers.deep_view(),
            includes: self.includes@,
            inherits: self.inherits@,
        }
    }
}

impl Topic {
    pub fn empty() -> (r: Self)
        ensures
            r.deep_view() == empty_topic(),
    {
        let r = Topic { triggers: Vec::new(), includes: StrSet::new(), inherits: StrSet::new() };
        proof {
            assert(r.deep_view() =~~= empty_topic());
        }
        r
    }

    pub fn set_includes(&mut self, includes: String)
        ensures
            final(self).deep_view() == (TopicV {
                includes: old(self).deep_view().includes.insert(includes@),
                ..old(self).deep_view()
            }),
    {
        self.includes.insert(includes);
    }

    pub fn set_inherits(&mut self, inherits: String)
        ensures
            final(self).deep_view() == (TopicV {
                inherits: old(self).deep_view().inherits.insert(inherits@),
                ..old(self).deep_view()
            }),
    {
        self.inherits.insert(inherits);
    }

    pub fn add_trigger(&mut self, trigger: Trigger)
        ensures
            final(self).deep_view() == (TopicV {
                triggers: old(self).deep_view().triggers.push(trigger.deep_view()),
                ..old(self).deep_view()
            }),
    {
        self.triggers.push(trigger);
        proof {
            assert(self.triggers.deep_view() =~~= old(self).triggers.deep_view().push(
                self.triggers@.last().deep_view(),
            ));
        }
    }
}

/// View of a code object: name, language tag and raw source lines.
#[verifier::ext_equal]
pub ghost struct ObjectV {
    pub name: Seq<char>,
    pub language: Seq<char>,
    pub code: Seq<Seq<char>>,
}

/// Object represents a parsed object macro: a named block of source
/// code in some other programming language, kept opaque at this layer.
#[derive(Debug)]
pub struct Object {
    pub name: String,
    pub language: String,
    pub code: Vec<String>,
}

impl DeepView for Object {
    type V = ObjectV;

    open spec fn deep_view(&self) -> ObjectV {
        ObjectV { name: self.name@, language: self.language@, code: self.code.deep_view() }
    }
}

impl Object {
    pub fn new(name: &str, language: &str, code: Vec<String>) -> (r: Self)
        ensures
            r.deep_view() == (ObjectV {
                name: name@,
                language: language@,
                code: code.deep_view(),
            }),
    {
        Object { name: name.to_owned(), language: language.to_owned(), code }
    }
}

/// View of the whole rule tree.  `version` is the declared RiveScript
/// specification version in millionths, 0 when none was declared.
#[verifier::ext_equal]
pub ghost struct AstV {
    pub version: int,
    pub globals: Map<Seq<char>, Seq<char>>,
    pub vars: Map<Seq<char>, Seq<char>>,
    pub subs: Map<Seq<char>, Seq<char>>,
    pub person: Map<Seq<char>, Seq<char>>,
    pub arrays: Map<Seq<char>, Seq<Seq<char>>>,
    pub topics: Map<Seq<char>, TopicV>,
    pub objects: Map<Seq<char>, ObjectV>,
}

/// The tree of a document with no content.
pub open spec fn empty_ast() -> AstV {
    AstV {
        version: 0,
        globals: Map::empty(),
        vars: Map::empty(),
        subs: Map::empty(),
        person: Map::empty(),
        arrays: Map::empty(),
        topics: Map::empty(),
        objects: Map::empty(),
    }
}

/// Merge of two topics sharing a name: the incoming triggers are
/// appended after the existing ones; the existing relations stand.
pub open spec fn topics_union(a: Map<Seq<char>, TopicV>, b: Map<Seq<char>, TopicV>) -> Map<
    Seq<char>,
    TopicV,
> {
    Map::new(
        |k: Seq<char>| a.contains_key(k) || b.contains_key(k),
        |k: Seq<char>|
            if a.contains_key(k) && b.contains_key(k) {
                TopicV { triggers: a[k].triggers + b[k].triggers, ..a[k] }
            } else if b.contains_key(k) {
                b[k]
            } else {
                a[k]
            },
    )
}

/// Merge of two rule trees: scalar maps are last-write-wins with the
/// incoming tree winning, topics merge by name, and a non-zero incoming
/// version replaces the current one.
pub open spec fn ast_union(a: AstV, b: AstV) -> AstV {
    AstV {
        version: if b.version != 0 {
            b.version
        } else {
            a.version
        },
        globals: a.globals.union_prefer_right(b.globals),
        vars: a.vars.union_prefer_right(b.vars),
        subs: a.subs.union_prefer_right(b.subs),
        person: a.person.union_prefer_right(b.person),
        arrays: a.arrays.union_prefer_right(b.arrays),
        topics: topics_union(a.topics, b.topics),
        objects: a.objects.union_prefer_right(b.objects),
    }
}

/// The data-model invariant on topic relations: no topic names itself
/// among its own includes or inherits.
pub open spec fn no_self_relations(a: AstV) -> bool {
    forall|k: Seq<char>|
        #[trigger] a.topics.contains_key(k) ==> !a.topics[k].includes.contains(k)
            && !a.topics[k].inherits.contains(k)
}

/// Merging preserves the relation invariant: a shared topic keeps the
/// standing relations, a new one brings its own, so no self-reference
/// can appear.
pub proof fn lemma_union_no_self(a: AstV, b: AstV)
    requires
        no_self_relations(a),
        no_self_relations(b),
    ensures
        no_self_relations(ast_union(a, b)),
{
    let u = ast_union(a, b);
    assert forall|k: Seq<char>| #[trigger] u.topics.contains_key(k) implies !u.topics[
        k
    ].includes.contains(k) && !u.topics[k].inherits.contains(k) by {
        if a.topics.contains_key(k) && b.topics.contains_key(k) {
            assert(u.topics[k].includes == a.topics[k].includes);
            assert(u.topics[k].inherits == a.topics[k].inherits);
        } else if b.topics.contains_key(k) {
            assert(u.topics[k] == b.topics[k]);
        } else {
            assert(u.topics[k] == a.topics[k]);
        }
    }
}

/// Root of the tree representing a RiveScript source document and its
/// useful contents.
#[derive(Debug)]
pub struct AST {
    pub version: u64,
    pub globals: StrMap<String>,
    pub vars: StrMap<String>,
    pub subs: StrMap<String>,
    pub person: StrMap<String>,
    pub arrays: StrMap<Vec<String>>,
    pub topics: StrMap<Topic>,
    pub objects: StrMap<Object>,
}

impl View for AST {
    type V = AstV;

    open spec fn view(&self) -> AstV {
        AstV {
            version: self.version as int,
            globals: self.globals@,
            vars: self.vars@,
            subs: self.subs@,
            person: self.person@,
            arrays: self.arrays@,
            topics: self.topics@,
            objects: self.objects@,
        }
    }
}

impl AST {
    /// All the name-keyed maps are well formed.
    pub open spec fn wf(&self) -> bool {
        self.globals.wf() && self.vars.wf() && self.subs.wf() && self.person.wf()
            && self.arrays.wf() && self.topics.wf() && self.objects.wf()
    }

    /// Initialize a new tree ready for populating.
    pub fn new() -> (r: Self)
        ensures
            r.wf(),
            r@ == empty_ast(),
    {
        let r = AST {
            version: 0,
            globals: StrMap::new(),
            vars: StrMap::new(),
            subs: StrMap::new(),
            person: StrMap::new(),
            arrays: StrMap::new(),
            topics: StrMap::new(),
            objects: StrMap::new(),
        };
        proof {
            assert(r@ =~~= empty_ast());
        }
        r
    }

    /// Initialize the data structure for a new topic, if it was not
    /// already there.
    pub fn init_topic(&mut self, name: &String)
        requires
            old(self).wf(),
        ensures
            final(self).wf(),
            final(self)@ == (AstV {
                topics: if old(self)@.topics.contains_key(name@) {
                    old(self)@.topics
                } else {
                    old(self)@.topics.insert(name@, empty_topic())
                },
                ..old(self)@
            }),
    {
        if !self.topics.contains_key(name.as_str()) {
            let t = Topic::empty();
            self.topics.insert(name.clone(), t);
        } else {
            proof {
                assert(final(self)@ =~~= (AstV { topics: old(self)@.topics, ..old(self)@ }));
            }
        }
    }

    /// Merge the contents of `other` into this tree, as when loading a
    /// directory of documents into one brain.
    pub fn extend(&mut self, other: AST)
        requires
            old(self).wf(),
            other.wf(),
        ensures
            final(self).wf(),
            final(self)@ == ast_union(old(self)@, other@),
    {
        if other.version != 0 {
            self.version = other.version;
        }
        self.globals.extend(other.globals);
        self.vars.extend(other.vars);
        self.subs.extend(other.subs);
        self.person.extend(other.person);
        self.arrays.extend(other.arrays);
        self.objects.extend(other.objects);
        merge_topics(&mut self.topics, other.topics);
        proof {
            assert(final(self)@ =~~= ast_union(old(self)@, other@));
        }
    }
}

/// Merges the incoming topic map into `mine` per `topics_union`.
fn merge_topics(mine: &mut StrMap<Topic>, other: StrMap<Topic>)
    requires
        old(mine).wf(),
        other.wf(),
    ensures
        final(mine).wf(),
        final(mine)@ == topics_union(old(mine)@, other@),
{
    let ghost target = topics_union(old(mine)@, other@);
    let mut rest = other;
    let mut going = true;
    while going
        invariant
            mine.wf(),
            rest.wf(),
            going ==> topics_union(mine@, rest@) == target,
            !going ==> mine@ == target,
        decreases rest.spec_keys().len() + (if going { 1int } else { 0int }),
    {
        let ghost mine0 = mine@;
        let ghost rest0 = rest@;
        match rest.take_first() {
            Some((name, mut incoming)) => {
                let ghost k = name@;
                let ghost tv = incoming.deep_view();
                match mine.take(name.as_str()) {
                    Some(mut own) => {
                        let ghost own0 = own.deep_view();
                        own.triggers.append(&mut incoming.triggers);
                        proof {
                            assert(own.triggers.deep_view() =~~= own0.triggers + tv.triggers);
                            assert(own.deep_view() =~~= (TopicV {
                                triggers: own0.triggers + tv.triggers,
                                ..own0
                            }));
                        }
                        mine.insert(name, own);
                        proof {
                            assert(topics_union(mine@, rest@) =~~= topics_union(mine0, rest0));
                        }
                    },
                    None => {
                        mine.insert(name, incoming);
                        proof {
                            assert(topics_union(mine@, rest@) =~~= topics_union(mine0, rest0));
                        }
                    },
                }
            },
            None => {
                proof {
                    assert(rest0 =~~= Map::<Seq<char>, TopicV>::empty());
                    assert(topics_union(mine0, rest0) =~~= mine0);
                }
                going = false;
            },
        }
    }
}

} // verus!
