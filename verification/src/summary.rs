//! A summary of the store in numbers: its entities, its resources, and its
//! archetypes, the most populous first.

use vstd::prelude::*;
use vstd::string::StringExecFns;
use crate::sorting::{lemma_ordered_total, ordered, sort, Ordered};
use crate::store::{
    copy_of, find_component_type, ArchetypeId, ArchetypeRecord, ComponentTypeId, ResourceRecord,
    Store,
};
use crate::text::{
    decimal, decimal_text, join, join_texts, short_name, short_type_name, sort_texts, text_order,
    texts,
};

verus! {

/// Settings for a summary.
#[derive(Clone, Copy, Debug)]
pub struct SummarySettings {
    /// Whether the summary of an archetype holds the names of its component types.
    pub include_component_names: bool,
    /// Whether archetypes without entities are listed.
    pub include_empty_archetypes: bool,
    /// How many archetypes are shown at most; `None` for all.
    pub max_archetype_rows: Option<usize>,
}

impl Default for SummarySettings {
    fn default() -> (settings: Self)
        ensures
            settings.include_component_names,
            !settings.include_empty_archetypes,
            settings.max_archetype_rows == Some(15usize),
    {
        SummarySettings {
            include_component_names: true,
            include_empty_archetypes: false,
            max_archetype_rows: Some(15),
        }
    }
}

/// The summary of one archetype.
#[derive(Clone, Debug)]
pub struct ArchetypeSummary {
    /// The identifier of the archetype.
    pub archetype_id: ArchetypeId,
    /// How many entities belong to the archetype.
    pub entity_count: usize,
    /// The component types of the archetype.
    pub component_ids: Vec<ComponentTypeId>,
    /// The names of the component types, where the settings ask for them.
    pub component_names: Option<Vec<String>>,
}

/// The summary of a store.
#[derive(Clone, Debug)]
pub struct WorldSummary {
    /// The number of entities.
    pub total_entities: u32,
    /// The number of archetypes, empty ones included.
    pub total_archetypes: usize,
    /// The number of archetypes without entities.
    pub empty_archetypes: usize,
    /// The number of resources that can be sent between threads.
    pub total_send_resources: usize,
    /// The number of resources that cannot.
    pub total_non_send_resources: usize,
    /// The summaries of the archetypes: most entities first, then fewest
    /// component types, then smallest identifier.
    pub archetype_summaries: Vec<ArchetypeSummary>,
    /// How many archetypes are shown at most; `None` for all.
    pub max_archetype_rows: Option<usize>,
}

/// What the summaries of archetypes are ordered by.
#[derive(Clone, Copy, Debug)]
pub struct SummaryRank {
    /// How many entities belong to the archetype; more come first.
    pub entity_count: usize,
    /// How many component types the archetype has; fewer come first.
    pub components: usize,
    /// The number of the archetype's identifier; smaller come first.
    pub archetype: u64,
    /// Where the archetype stands among those listed; what is equal
    /// otherwise keeps its order.
    pub position: usize,
}

impl Ordered for SummaryRank {
    open spec fn leq(self, other: Self) -> bool {
        if self.entity_count != other.entity_count {
            self.entity_count > other.entity_count
        } else if self.components != other.components {
            self.components < other.components
        } else if self.archetype != other.archetype {
            self.archetype < other.archetype
        } else {
            self.position <= other.position
        }
    }

    fn le(&self, other: &Self) -> (le: bool) {
        if self.entity_count != other.entity_count {
            self.entity_count > other.entity_count
        } else if self.components != other.components {
            self.components < other.components
        } else if self.archetype != other.archetype {
            self.archetype < other.archetype
        } else {
            self.position <= other.position
        }
    }

    proof fn lemma_order(a: Self, b: Self, c: Self) {
    }
}

/// The predicate that holds of the archetypes that a summary lists.
pub open spec fn is_listed(settings: SummarySettings) -> spec_fn(ArchetypeRecord) -> bool {
    |record: ArchetypeRecord| settings.include_empty_archetypes || record.entity_count > 0
}

/// The ranks of the listed archetypes, in the order of the archetypes.
pub open spec fn ranks_of(listed: Seq<ArchetypeRecord>) -> Seq<SummaryRank> {
    Seq::new(
        listed.len(),
        |i: int|
            SummaryRank {
                entity_count: listed[i].entity_count,
                components: listed[i].components@.len() as usize,
                archetype: listed[i].id.0,
                position: i as usize,
            },
    )
}

/// The name under which a component type is listed: its full path, or
/// `Component #` and its number where the type is not registered.
pub open spec fn listed_name(store: &Store, id: ComponentTypeId) -> Seq<char> {
    match find_component_type(store.component_types@, id) {
        Some(info) => info.name@,
        None => "Component #"@ + decimal_text(id.0 as nat),
    }
}

/// `summary` is the summary of the archetype `record`.
pub open spec fn is_summary_of(store: &Store, settings: SummarySettings, record: ArchetypeRecord, summary: ArchetypeSummary) -> bool {
    &&& summary.archetype_id == record.id
    &&& summary.entity_count == record.entity_count
    &&& summary.component_ids@ == record.components@
    &&& if settings.include_component_names {
        &&& summary.component_names is Some
        &&& summary.component_names->0@.len() == record.components@.len()
        &&& forall|j: int|
            0 <= j < record.components@.len() ==> (#[trigger] summary.component_names->0@[j])@
                == listed_name(store, record.components@[j])
    } else {
        summary.component_names is None
    }
}

/// How many of the archetypes have no entities.
pub open spec fn count_empty(records: Seq<ArchetypeRecord>) -> nat
    decreases records.len(),
{
    if records.len() == 0 {
        0
    } else {
        count_empty(records.drop_last()) + (if records.last().entity_count == 0 {
            1nat
        } else {
            0nat
        })
    }
}

/// How many of the resources can, or cannot, be sent between threads.
pub open spec fn count_resources(resources: Seq<ResourceRecord>, send: bool) -> nat
    decreases resources.len(),
{
    if resources.len() == 0 {
        0
    } else {
        count_resources(resources.drop_last(), send) + (if resources.last().is_send == send {
            1nat
        } else {
            0nat
        })
    }
}

/// The short names of the given type names, in the order of their code
/// points, with `", "` between them.
pub open spec fn short_signature(names: Seq<Seq<char>>) -> Seq<char> {
    join_texts(
        names.map_values(|name: Seq<char>| short_type_name(name)).sort_by(text_order()),
        ", "@,
    )
}

impl ArchetypeSummary {
    /// A signature of the archetype to read: the short names of its
    /// component types, sorted, and the number of the archetype; the number
    /// alone where the summary holds no names.
    pub open spec fn signature_text(&self) -> Seq<char> {
        match self.component_names {
            Some(names) => short_signature(texts(names@)) + " (#"@ + decimal_text(
                self.archetype_id.0 as nat,
            ) + ")"@,
            None => "#"@ + decimal_text(self.archetype_id.0 as nat),
        }
    }

    /// The line of the archetype in the text of a summary.
    pub open spec fn line_text(&self) -> Seq<char> {
        archetype_line(self.signature_text(), self.entity_count as nat)
    }

    /// Writes the signature of the archetype; see [`ArchetypeSummary::signature_text`].
    pub fn signature_short(&self) -> (signature: String)
        ensures
            signature@ == self.signature_text(),
    {
        let number = decimal(self.archetype_id.0);
        match &self.component_names {
            Some(names) => {
                let mut components: Vec<String> = Vec::new();
                let mut i: usize = 0;
                let ghost shorten = |name: Seq<char>| short_type_name(name);
                while i < names.len()
                    invariant
                        i <= names.len(),
                        components.len() == i,
                        shorten == |name: Seq<char>| short_type_name(name),
                        forall|k: int|
                            0 <= k < i ==> (#[trigger] components@[k])@ == short_type_name(
                                names@[k]@,
                            ),
                    decreases names.len() - i,
                {
                    components.push(short_name(names[i].as_str()));
                    i += 1;
                }
                assert(texts(components@) =~= texts(names@).map_values(shorten));
                let sorted = sort_texts(components);
                let mut signature = join(&sorted, ", ");
                signature.append(" (#");
                signature.append(number.as_str());
                signature.append(")");
                signature
            },
            None => {
                let mut signature = String::from_str("#");
                signature.append(number.as_str());
                signature
            },
        }
    }
}

/// The line of an archetype in the text of a summary.
pub open spec fn archetype_line(signature: Seq<char>, entity_count: nat) -> Seq<char> {
    signature + " ("@ + decimal_text(entity_count) + " entities)\n"@
}

/// The first `rows` lines of archetypes in the text of a summary, numbered from 1.
pub open spec fn archetype_rows(lines: Seq<Seq<char>>, rows: nat) -> Seq<char>
    decreases rows,
{
    if rows == 0 || rows > lines.len() {
        Seq::empty()
    } else {
        archetype_rows(lines, (rows - 1) as nat) + decimal_text(rows) + ". "@ + lines[rows - 1]
    }
}

/// The lines of the archetypes of a summary.
pub open spec fn summary_lines(summaries: Seq<ArchetypeSummary>) -> Seq<Seq<char>> {
    Seq::new(summaries.len(), |i: int| summaries[i].line_text())
}

/// The head of the text of a summary: its counts.
pub open spec fn summary_head(
    entities: nat,
    archetypes: nat,
    empty: nat,
    send: nat,
    non_send: nat,
    resources: nat,
) -> Seq<char> {
    "Summary:\nEntity count: "@ + decimal_text(entities) + "\nArchetype count: "@ + decimal_text(
        archetypes,
    ) + " ("@ + decimal_text(empty) + " empty)\nResource count: "@ + decimal_text(resources)
        + " ("@ + decimal_text(send) + " `Send` + "@ + decimal_text(non_send)
        + " non-`Send`)\nArchetypes:\n"@
}

/// The end of the text of a summary: how many archetypes are not shown.
pub open spec fn summary_tail(hidden: nat) -> Seq<char> {
    if hidden == 0 {
        Seq::empty()
    } else {
        "... and "@ + decimal_text(hidden) + " more archetypes."@
    }
}

impl ArchetypeSummary {
    /// The line of the archetype in the text of a summary: its signature
    /// and the number of its entities.
    pub fn to_text(&self) -> (text: String)
        ensures
            text@ == self.line_text(),
    {
        let mut text = self.signature_short();
        let ghost signature = text@;
        let number = decimal(self.entity_count as u64);
        text.append(" (");
        text.append(number.as_str());
        text.append(" entities)\n");
        assert(text@ == archetype_line(signature, self.entity_count as nat));
        text
    }
}

impl WorldSummary {
    /// How many archetypes the text shows: all, or as many as the limit allows.
    pub open spec fn shown_rows(&self) -> nat {
        match self.max_archetype_rows {
            Some(limit) => if limit < self.archetype_summaries@.len() {
                limit as nat
            } else {
                self.archetype_summaries@.len()
            },
            None => self.archetype_summaries@.len(),
        }
    }

    /// The summary as text: the counts, then one numbered line for each
    /// archetype that is shown, then how many are not shown.
    pub fn to_text(&self) -> (text: String)
        ensures
            text@ == summary_head(
                self.total_entities as nat,
                self.total_archetypes as nat,
                self.empty_archetypes as nat,
                self.total_send_resources as nat,
                self.total_non_send_resources as nat,
                self.total_send_resources.saturating_add(self.total_non_send_resources) as nat,
            ) + archetype_rows(summary_lines(self.archetype_summaries@), self.shown_rows())
                + summary_tail((self.archetype_summaries@.len() - self.shown_rows()) as nat),
    {
        let total_resource_count = self.total_send_resources.saturating_add(
            self.total_non_send_resources,
        );
        let mut display = String::from_str("Summary:\nEntity count: ");
        display.append(decimal(self.total_entities as u64).as_str());
        display.append("\nArchetype count: ");
        display.append(decimal(self.total_archetypes as u64).as_str());
        display.append(" (");
        display.append(decimal(self.empty_archetypes as u64).as_str());
        display.append(" empty)\nResource count: ");
        display.append(decimal(total_resource_count as u64).as_str());
        display.append(" (");
        display.append(decimal(self.total_send_resources as u64).as_str());
        display.append(" `Send` + ");
        display.append(decimal(self.total_non_send_resources as u64).as_str());
        display.append(" non-`Send`)\nArchetypes:\n");
        let ghost head = display@;
        let total = self.archetype_summaries.len();
        let archetype_display_limit = match self.max_archetype_rows {
            Some(limit) => if limit < total {
                limit
            } else {
                total
            },
            None => total,
        };
        let ghost lines = summary_lines(self.archetype_summaries@);
        let mut i: usize = 0;
        while i < archetype_display_limit
            invariant
                i <= archetype_display_limit <= total,
                total == self.archetype_summaries@.len(),
                lines == summary_lines(self.archetype_summaries@),
                display@ == head + archetype_rows(lines, i as nat),
            decreases archetype_display_limit - i,
        {
            let line = self.archetype_summaries[i].to_text();
            display.append(decimal((i + 1) as u64).as_str());
            display.append(". ");
            display.append(line.as_str());
            i += 1;
        }
        if total > archetype_display_limit {
            let remaining_archetypes = total - archetype_display_limit;
            display.append("... and ");
            display.append(decimal(remaining_archetypes as u64).as_str());
            display.append(" more archetypes.");
        }
        assert(display@ =~= head + archetype_rows(lines, self.shown_rows()) + summary_tail(
            (self.archetype_summaries@.len() - self.shown_rows()) as nat,
        ));
        display
    }
}

/// The names under which the component types of an archetype are listed.
pub fn listed_names(store: &Store, components: &Vec<ComponentTypeId>) -> (names: Vec<String>)
    ensures
        names@.len() == components@.len(),
        forall|j: int|
            0 <= j < components@.len() ==> (#[trigger] names@[j])@ == listed_name(
                store,
                components@[j],
            ),
{
    let mut names: Vec<String> = Vec::new();
    let mut j: usize = 0;
    while j < components.len()
        invariant
            j <= components.len(),
            names.len() == j,
            forall|k: int|
                0 <= k < j ==> (#[trigger] names@[k])@ == listed_name(store, components@[k]),
        decreases components.len() - j,
    {
        let id = components[j];
        let name = match store.component_type(id) {
            Some(info) => info.name.clone(),
            None => {
                let mut name = String::from_str("Component #");
                let number = decimal(id.0);
                name.append(number.as_str());
                name
            },
        };
        names.push(name);
        j += 1;
    }
    names
}

impl Store {
    /// Summarizes the store.
    ///
    /// The archetypes are listed with most entities first; among those
    /// with as many, the ones with fewer component types first, then the
    /// ones with the smaller identifier. Archetypes without entities are
    /// listed only where the settings ask for them, and counted either way.
    pub fn summarize(&self, settings: SummarySettings) -> (summary: WorldSummary)
        ensures
            summary.total_entities == (if self.entities@.len() > u32::MAX {
                u32::MAX
            } else {
                self.entities@.len() as u32
            }),
            summary.total_archetypes == self.archetypes@.len(),
            summary.total_send_resources == count_resources(self.resources@, true),
            summary.total_non_send_resources == count_resources(self.resources@, false),
            summary.empty_archetypes == count_empty(self.archetypes@),
            summary.max_archetype_rows == settings.max_archetype_rows,
            summary.archetype_summaries@.len() == self.archetypes@.filter(
                is_listed(settings),
            ).len(),
            forall|k: int|
                0 <= k < summary.archetype_summaries@.len() ==> {
                    let listed = self.archetypes@.filter(is_listed(settings));
                    let rank = ranks_of(listed).sort_by(ordered::<SummaryRank>())[k];
                    0 <= rank.position < listed.len() && is_summary_of(
                        self,
                        settings,
                        listed[rank.position as int],
                        #[trigger] summary.archetype_summaries@[k],
                    )
                },
    {
        let total_entities: u32 = if self.entities.len() > u32::MAX as usize {
            u32::MAX
        } else {
            self.entities.len() as u32
        };
        let mut total_send_resources: usize = 0;
        let mut total_non_send_resources: usize = 0;
        let mut r: usize = 0;
        assert(self.resources@.take(0) =~= Seq::<ResourceRecord>::empty());
        while r < self.resources.len()
            invariant
                r <= self.resources.len(),
                total_send_resources == count_resources(self.resources@.take(r as int), true),
                total_non_send_resources == count_resources(self.resources@.take(r as int), false),
                total_send_resources <= r,
                total_non_send_resources <= r,
            decreases self.resources.len() - r,
        {
            proof {
                assert(self.resources@.take(r as int + 1).drop_last() == self.resources@.take(
                    r as int,
                ));
                assert(self.resources@.take(r as int + 1).last() == self.resources@[r as int]);
            }
            if self.resources[r].is_send {
                total_send_resources += 1;
            } else {
                total_non_send_resources += 1;
            }
            r += 1;
        }
        assert(self.resources@.take(self.resources.len() as int) == self.resources@);
        let ghost keep = is_listed(settings);
        let mut picked: Vec<usize> = Vec::new();
        let mut ranks: Vec<SummaryRank> = Vec::new();
        let mut empty_archetypes: usize = 0;
        let mut i: usize = 0;
        proof {
            assert(self.archetypes@.take(0) =~= Seq::<ArchetypeRecord>::empty());
            reveal(Seq::filter);
        }
        while i < self.archetypes.len()
            invariant
                i <= self.archetypes.len(),
                keep == is_listed(settings),
                empty_archetypes == count_empty(self.archetypes@.take(i as int)),
                empty_archetypes <= i,
                picked.len() == ranks.len(),
                picked.len() <= i,
                picked@.len() == self.archetypes@.take(i as int).filter(keep).len(),
                forall|k: int|
                    0 <= k < picked@.len() ==> (#[trigger] picked@[k]) < i
                        && self.archetypes@[picked@[k] as int] == self.archetypes@.take(
                        i as int,
                    ).filter(keep)[k],
                ranks@ == ranks_of(self.archetypes@.take(i as int).filter(keep)),
            decreases self.archetypes.len() - i,
        {
            let record = &self.archetypes[i];
            let ghost front = self.archetypes@.take(i as int);
            proof {
                assert(self.archetypes@.take(i as int + 1) == front.push(*record));
                assert(self.archetypes@.take(i as int + 1).drop_last() == front);
                front.lemma_filter_push(*record, keep);
            }
            if record.entity_count == 0 {
                empty_archetypes += 1;
            }
            if settings.include_empty_archetypes || record.entity_count > 0 {
                let position = picked.len();
                picked.push(i);
                ranks.push(
                    SummaryRank {
                        entity_count: record.entity_count,
                        components: record.components.len(),
                        archetype: record.id.0,
                        position,
                    },
                );
                assert(ranks@ =~= ranks_of(front.filter(keep).push(*record)));
            }
            i += 1;
        }
        assert(self.archetypes@.take(self.archetypes.len() as int) == self.archetypes@);
        let ghost listed = self.archetypes@.filter(keep);
        let sorted = sort(&ranks);
        proof {
            broadcast use vstd::seq_lib::group_to_multiset_ensures;

            lemma_ordered_total::<SummaryRank>();
            ranks@.lemma_sort_by_ensures(ordered::<SummaryRank>());
            assert(sorted@.to_multiset().len() == sorted@.len());
            assert(ranks@.to_multiset().len() == ranks@.len());
            assert(sorted@.len() == ranks@.len());
            assert forall|k: int| 0 <= k < sorted@.len() implies 0 <= (
            #[trigger] sorted@[k]).position < listed.len() by {
                assert(sorted@.contains(sorted@[k]));
                assert(ranks@.contains(sorted@[k]));
                let m = choose|m: int| 0 <= m < ranks@.len() && ranks@[m] == sorted@[k];
                assert(ranks@[m].position == m);
            }
        }
        let mut archetype_summaries: Vec<ArchetypeSummary> = Vec::new();
        let mut k: usize = 0;
        while k < sorted.len()
            invariant
                k <= sorted.len(),
                archetype_summaries.len() == k,
                picked@.len() == listed.len(),
                listed == self.archetypes@.filter(is_listed(settings)),
                forall|m: int|
                    0 <= m < picked@.len() ==> (#[trigger] picked@[m]) < self.archetypes.len()
                        && self.archetypes@[picked@[m] as int] == listed[m],
                forall|m: int|
                    0 <= m < sorted@.len() ==> 0 <= (#[trigger] sorted@[m]).position
                        < listed.len(),
                forall|m: int|
                    0 <= m < k ==> is_summary_of(
                        self,
                        settings,
                        listed[sorted@[m].position as int],
                        #[trigger] archetype_summaries@[m],
                    ),
            decreases sorted.len() - k,
        {
            let record = &self.archetypes[picked[sorted[k].position]];
            let component_names = if settings.include_component_names {
                Some(listed_names(self, &record.components))
            } else {
                None
            };
            archetype_summaries.push(
                ArchetypeSummary {
                    archetype_id: record.id,
                    entity_count: record.entity_count,
                    component_ids: copy_of(&record.components),
                    component_names,
                },
            );
            k += 1;
        }
        WorldSummary {
            total_entities,
            total_archetypes: self.archetypes.len(),
            empty_archetypes,
            total_send_resources,
            total_non_send_resources,
            archetype_summaries,
            max_archetype_rows: settings.max_archetype_rows,
        }
    }
}

} // verus!
