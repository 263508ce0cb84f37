//! The catalog scan: walks the events of the game-object catalog and decides,
//! one event at a time, which game objects of the "Pony" category have both a
//! model and a rig animation to convert.
use vstd::prelude::*;

verus! {

/// A game object with the files that make it up.
pub struct GameObject {
    pub id: String,
    pub model_name: String,
    pub anim_name: String,
}

/// Converts the game objects found in a game folder into an output folder.
pub struct BulkConvertor {
    pub game_folder: String,
    pub output_folder: String,
}

impl BulkConvertor {
    pub fn new(game_folder: String, output_folder: String) -> (r: BulkConvertor)
        ensures
            r.game_folder@ == game_folder@,
            r.output_folder@ == output_folder@,
    {
        BulkConvertor { game_folder, output_folder }
    }
}

/// One attribute of a catalog element.
pub struct Attribute {
    pub name: String,
    pub value: String,
}

/// What the catalog reader hands over, one at a time.
pub enum CatalogEvent {
    Start { name: String, attributes: Vec<Attribute> },
    End { name: String },
    EndDocument,
    /// The reader failed; nothing more comes.
    Failure,
    /// Any other event (text, comments, processing instructions...).
    Other,
}

/// Where the scan stands.
pub enum CatalogState {
    /// Outside the "Pony" category.
    Top,
    /// Inside the "Pony" category, `count` objects seen.
    Category { count: u64 },
    /// Inside the game object `id`.
    Object { count: u64, id: String, model_name: Option<String>, anim_name: Option<String> },
    /// The scan is over.
    Done,
}

/// What the scan asks its driver to do.
pub enum CatalogAction {
    /// Convert this game object.
    Convert(GameObject),
    /// The object with this id lacks a model or an animation.
    Skip(String),
    /// The category closed after this many objects.
    Total(u64),
}

/// A catalog the scan cannot accept.
#[derive(Clone, Copy, Debug, PartialEq, Eq, Structural)]
pub enum CatalogError {
    /// An element carries its `ID` attribute twice.
    DuplicateId,
    /// A category element has no `ID` attribute.
    MissingCategoryId,
    /// A game object names its `MediumLOD` model twice.
    DuplicateModel,
    /// A game object names its `Rig_MediumLOD` animation twice.
    DuplicateAnimation,
}

/// How many attributes are called `key`.
pub open spec fn key_count(attrs: Seq<Attribute>, key: Seq<char>) -> nat
    decreases attrs.len(),
{
    if attrs.len() == 0 {
        0
    } else {
        key_count(attrs.drop_last(), key) + if attrs.last().name@ == key {
            1nat
        } else {
            0nat
        }
    }
}

/// The value of the last attribute called `key`.
pub open spec fn key_value(attrs: Seq<Attribute>, key: Seq<char>) -> Seq<char>
    decreases attrs.len(),
{
    if attrs.len() == 0 {
        Seq::empty()
    } else if attrs.last().name@ == key {
        attrs.last().value@
    } else {
        key_value(attrs.drop_last(), key)
    }
}

pub open spec fn opt_view(o: Option<String>) -> Option<Seq<char>> {
    match o {
        Some(s) => Some(s@),
        None => None,
    }
}

/// `a` finishes the object `id`: converted when it has both files, else skipped.
pub open spec fn finishes(
    a: CatalogAction,
    id: String,
    model: Option<String>,
    anim: Option<String>,
) -> bool {
    match (model, anim) {
        (Some(m), Some(n)) => a matches CatalogAction::Convert(g) && g.id@ == id@ && g.model_name@
            == m@ && g.anim_name@ == n@,
        _ => a matches CatalogAction::Skip(s) && s@ == id@,
    }
}

/// `t` is the object state with the given fields.
pub open spec fn is_object(
    t: CatalogState,
    count: u64,
    id: Seq<char>,
    model: Option<Seq<char>>,
    anim: Option<Seq<char>>,
) -> bool {
    t matches CatalogState::Object { count: c, id: i, model_name: m, anim_name: n } && c == count
        && i@ == id && opt_view(m) == model && opt_view(n) == anim
}

/// `t` is the same state as `s`.
pub open spec fn same_state(t: CatalogState, s: CatalogState) -> bool {
    match s {
        CatalogState::Top => t is Top,
        CatalogState::Done => t is Done,
        CatalogState::Category { count } => t matches CatalogState::Category { count: c } && c
            == count,
        CatalogState::Object { count, id, model_name, anim_name } => is_object(
            t,
            count,
            id@,
            opt_view(model_name),
            opt_view(anim_name),
        ),
    }
}

/// A file attribute (`key`) met in an object whose slot holds `slot` names
/// the file a second time.
pub open spec fn slot_conflict(attrs: Seq<Attribute>, key: Seq<char>, slot: Option<String>) -> bool {
    key_count(attrs, key) >= 2 || (key_count(attrs, key) == 1 && slot is Some)
}

/// The slot once the attributes are taken in: one naming fills it.
pub open spec fn slot_after(attrs: Seq<Attribute>, key: Seq<char>, slot: Option<String>) -> Option<
    Seq<char>,
> {
    if key_count(attrs, key) == 1 {
        Some(key_value(attrs, key))
    } else {
        opt_view(slot)
    }
}

/// What one step of the scan does with `ev` in state `s`.
pub open spec fn step_spec(
    s: CatalogState,
    ev: CatalogEvent,
    r: Result<(CatalogState, Vec<CatalogAction>), CatalogError>,
) -> bool {
    if s is Done || ev is Failure || (s is Top && ev is EndDocument) {
        r matches Ok((t, a)) && t is Done && a@.len() == 0
    } else {
        match ev {
            CatalogEvent::EndDocument => match s {
                CatalogState::Category { count } => r matches Ok((t, a)) && t is Done && a@.len()
                    == 1 && a@[0] == CatalogAction::Total(count),
                CatalogState::Object { count, id, model_name, anim_name } => r matches Ok((t, a))
                    && t is Done && a@.len() == 2 && finishes(a@[0], id, model_name, anim_name)
                    && a@[1] == CatalogAction::Total(count),
                _ => false,
            },
            CatalogEvent::Start { name, attributes } => {
                let attrs = attributes@;
                match s {
                    CatalogState::Top => if name@ == "Category"@ {
                        let k = key_count(attrs, "ID"@);
                        if k >= 2 {
                            r == Err::<(CatalogState, Vec<CatalogAction>), CatalogError>(
                                CatalogError::DuplicateId,
                            )
                        } else if k == 0 {
                            r == Err::<(CatalogState, Vec<CatalogAction>), CatalogError>(
                                CatalogError::MissingCategoryId,
                            )
                        } else if key_value(attrs, "ID"@) == "Pony"@ {
                            r matches Ok((t, a)) && t == CatalogState::Category { count: 0 }
                                && a@.len() == 0
                        } else {
                            r matches Ok((t, a)) && t is Top && a@.len() == 0
                        }
                    } else {
                        r matches Ok((t, a)) && t is Top && a@.len() == 0
                    },
                    CatalogState::Category { count } => {
                        let k = key_count(attrs, "ID"@);
                        let next = if count < u64::MAX {
                            (count + 1) as u64
                        } else {
                            count
                        };
                        if k >= 2 {
                            r == Err::<(CatalogState, Vec<CatalogAction>), CatalogError>(
                                CatalogError::DuplicateId,
                            )
                        } else if k == 0 {
                            r matches Ok((t, a)) && t == CatalogState::Category { count: next }
                                && a@.len() == 0
                        } else {
                            r matches Ok((t, a)) && is_object(
                                t,
                                next,
                                key_value(attrs, "ID"@),
                                None,
                                None,
                            ) && a@.len() == 0
                        }
                    },
                    CatalogState::Object { count, id, model_name, anim_name } => if name@
                        == "Model"@ {
                        match r {
                            Err(e) => e == CatalogError::DuplicateModel && slot_conflict(
                                attrs,
                                "MediumLOD"@,
                                model_name,
                            ),
                            Ok((t, a)) => a@.len() == 0 && !slot_conflict(
                                attrs,
                                "MediumLOD"@,
                                model_name,
                            ) && is_object(
                                t,
                                count,
                                id@,
                                slot_after(attrs, "MediumLOD"@, model_name),
                                opt_view(anim_name),
                            ),
                        }
                    } else if name@ == "Animation"@ {
                        match r {
                            Err(e) => e == CatalogError::DuplicateAnimation && slot_conflict(
                                attrs,
                                "Rig_MediumLOD"@,
                                anim_name,
                            ),
                            Ok((t, a)) => a@.len() == 0 && !slot_conflict(
                                attrs,
                                "Rig_MediumLOD"@,
                                anim_name,
                            ) && is_object(
                                t,
                                count,
                                id@,
                                opt_view(model_name),
                                slot_after(attrs, "Rig_MediumLOD"@, anim_name),
                            ),
                        }
                    } else {
                        r matches Ok((t, a)) && same_state(t, s) && a@.len() == 0
                    },
                    _ => false,
                }
            },
            CatalogEvent::End { name } => match s {
                CatalogState::Category { count } => if name@ == "Category"@ {
                    r matches Ok((t, a)) && t is Top && a@.len() == 1 && a@[0]
                        == CatalogAction::Total(count)
                } else {
                    r matches Ok((t, a)) && same_state(t, s) && a@.len() == 0
                },
                CatalogState::Object { count, id, model_name, anim_name } => if name@
                    == "GameObject"@ {
                    r matches Ok((t, a)) && t == CatalogState::Category { count } && a@.len() == 1
                        && finishes(a@[0], id, model_name, anim_name)
                } else {
                    r matches Ok((t, a)) && same_state(t, s) && a@.len() == 0
                },
                _ => r matches Ok((t, a)) && same_state(t, s) && a@.len() == 0,
            },
            _ => r matches Ok((t, a)) && same_state(t, s) && a@.len() == 0,
        }
    }
}

fn is_named(s: &String, lit: &str) -> (r: bool)
    ensures
        r == (s@ == lit@),
{
    let t = lit.to_owned();
    *s == t
}

/// Looks up the attribute `key`: how many times it occurs (counted up to
/// two), and the value of its last occurrence.
fn find_attribute(attrs: &Vec<Attribute>, key: &str) -> (r: (u8, String))
    ensures
        r.0 == if key_count(attrs@, key@) >= 2 {
            2
        } else {
            key_count(attrs@, key@)
        },
        r.0 >= 1 ==> r.1@ == key_value(attrs@, key@),
{
    let mut found: u8 = 0;
    let mut value = String::new();
    let mut i: usize = 0;
    while i < attrs.len()
        invariant
            i <= attrs@.len(),
            found == if key_count(attrs@.subrange(0, i as int), key@) >= 2 {
                2
            } else {
                key_count(attrs@.subrange(0, i as int), key@)
            },
            found >= 1 ==> value@ == key_value(attrs@.subrange(0, i as int), key@),
        decreases attrs@.len() - i,
    {
        assert(attrs@.subrange(0, i + 1).drop_last() =~= attrs@.subrange(0, i as int));
        if is_named(&attrs[i].name, key) {
            if found < 2 {
                found += 1;
            }
            value = attrs[i].value.clone();
        }
        i += 1;
    }
    assert(attrs@.subrange(0, attrs@.len() as int) =~= attrs@);
    (found, value)
}

fn finish(id: String, model_name: Option<String>, anim_name: Option<String>) -> (a: CatalogAction)
    ensures
        finishes(a, id, model_name, anim_name),
{
    match model_name {
        Some(m) => match anim_name {
            Some(n) => CatalogAction::Convert(GameObject { id, model_name: m, anim_name: n }),
            None => CatalogAction::Skip(id),
        },
        None => CatalogAction::Skip(id),
    }
}

/// Takes one catalog event: the next state and what to do.
pub fn step(state: CatalogState, event: CatalogEvent) -> (r: Result<
    (CatalogState, Vec<CatalogAction>),
    CatalogError,
>)
    ensures
        step_spec(state, event, r),
{
    if let CatalogState::Done = state {
        return Ok((CatalogState::Done, Vec::new()));
    }
    match event {
        CatalogEvent::Failure => Ok((CatalogState::Done, Vec::new())),
        CatalogEvent::Other => Ok((state, Vec::new())),
        CatalogEvent::EndDocument => match state {
            CatalogState::Category { count } => {
                let mut a = Vec::new();
                a.push(CatalogAction::Total(count));
                Ok((CatalogState::Done, a))
            },
            CatalogState::Object { count, id, model_name, anim_name } => {
                let mut a = Vec::new();
                a.push(finish(id, model_name, anim_name));
                a.push(CatalogAction::Total(count));
                Ok((CatalogState::Done, a))
            },
            _ => Ok((CatalogState::Done, Vec::new())),
        },
        CatalogEvent::End { name } => match state {
            CatalogState::Category { count } => {
                if is_named(&name, "Category") {
                    let mut a = Vec::new();
                    a.push(CatalogAction::Total(count));
                    Ok((CatalogState::Top, a))
                } else {
                    Ok((CatalogState::Category { count }, Vec::new()))
                }
            },
            CatalogState::Object { count, id, model_name, anim_name } => {
                if is_named(&name, "GameObject") {
                    let mut a = Vec::new();
                    a.push(finish(id, model_name, anim_name));
                    Ok((CatalogState::Category { count }, a))
                } else {
                    Ok((CatalogState::Object { count, id, model_name, anim_name }, Vec::new()))
                }
            },
            other => Ok((other, Vec::new())),
        },
        CatalogEvent::Start { name, attributes } => match state {
            CatalogState::Top => {
                if is_named(&name, "Category") {
                    let (k, v) = find_attribute(&attributes, "ID");
                    if k >= 2 {
                        Err(CatalogError::DuplicateId)
                    } else if k == 0 {
                        Err(CatalogError::MissingCategoryId)
                    } else if is_named(&v, "Pony") {
                        Ok((CatalogState::Category { count: 0 }, Vec::new()))
                    } else {
                        Ok((CatalogState::Top, Vec::new()))
                    }
                } else {
                    Ok((CatalogState::Top, Vec::new()))
                }
            },
            CatalogState::Category { count } => {
                let next = if count < u64::MAX {
                    count + 1
                } else {
                    count
                };
                let (k, v) = find_attribute(&attributes, "ID");
                if k >= 2 {
                    Err(CatalogError::DuplicateId)
                } else if k == 0 {
                    Ok((CatalogState::Category { count: next }, Vec::new()))
                } else {
                    Ok(
                        (
                            CatalogState::Object {
                                count: next,
                                id: v,
                                model_name: None,
                                anim_name: None,
                            },
                            Vec::new(),
                        ),
                    )
                }
            },
            CatalogState::Object { count, id, model_name, anim_name } => {
                if is_named(&name, "Model") {
                    let (k, v) = find_attribute(&attributes, "MediumLOD");
                    if k >= 2 || (k == 1 && model_name.is_some()) {
                        Err(CatalogError::DuplicateModel)
                    } else if k == 1 {
                        let t = CatalogState::Object {
                            count,
                            id,
                            model_name: Some(v),
                            anim_name,
                        };
                        Ok((t, Vec::new()))
                    } else {
                        Ok((CatalogState::Object { count, id, model_name, anim_name }, Vec::new()))
                    }
                } else if is_named(&name, "Animation") {
                    let (k, v) = find_attribute(&attributes, "Rig_MediumLOD");
                    if k >= 2 || (k == 1 && anim_name.is_some()) {
                        Err(CatalogError::DuplicateAnimation)
                    } else if k == 1 {
                        let t = CatalogState::Object {
                            count,
                            id,
                            model_name,
                            anim_name: Some(v),
                        };
                        Ok((t, Vec::new()))
                    } else {
                        Ok((CatalogState::Object { count, id, model_name, anim_name }, Vec::new()))
                    }
                } else {
                    Ok((CatalogState::Object { count, id, model_name, anim_name }, Vec::new()))
                }
            },
            other => Ok((other, Vec::new())),
        },
    }
}

} // verus!
