use vstd::prelude::*;

verus! {

/// The name of the custom downstream event that announces a scene boundary.
pub const EVENT_NAME: &'static str = "scene-new-hype-event";

/// The field of the boundary event that carries the scene index.
pub const FIELD_INDEX: &'static str = "gop_index";

/// The field of the boundary event that carries the group size.
pub const FIELD_SIZE: &'static str = "gop_size";

/// The value held under one field of an event structure, as far as this
/// library reads it: an unsigned 32-bit integer, or anything else.
#[derive(Debug, Clone, Copy, PartialEq, Eq, Structural)]
pub enum FieldValue {
    U32(u32),
    Other,
}

/// The named structure that a custom event carries: a name and its fields,
/// in order.
#[derive(Debug)]
pub struct EventStructure {
    pub name: String,
    pub fields: Vec<(String, FieldValue)>,
}

/// A control event travelling on a channel, reduced to what the stage
/// distinguishes: an application-defined downstream event (with or without a
/// structure), a capability announcement, end-of-stream, or anything else.
#[derive(Debug)]
pub enum HostEvent {
    CustomDownstream(Option<EventStructure>),
    Caps,
    Eos,
    Other,
}

/// A scene boundary: the index of the scene that starts here and the
/// number of source frames in each scene.
#[derive(Debug, Clone, Copy, PartialEq, Eq, Structural)]
pub struct SceneNewHypeEvent {
    pub gop_index: u32,
    pub gop_size: u32,
}

/// The value of the first field called `name`, where that value is an
/// unsigned 32-bit integer.
pub open spec fn field_u32(fields: Seq<(String, FieldValue)>, name: Seq<char>) -> Option<u32>
    decreases fields.len(),
{
    if fields.len() == 0 {
        None
    } else if fields[0].0@ == name {
        match fields[0].1 {
            FieldValue::U32(v) => Some(v),
            FieldValue::Other => None,
        }
    } else {
        field_u32(fields.drop_first(), name)
    }
}

/// What an event means as a scene boundary: a custom downstream event whose
/// structure has the boundary's name and both fields as unsigned integers.
pub open spec fn boundary_of(ev: HostEvent) -> Option<SceneNewHypeEvent> {
    match ev {
        HostEvent::CustomDownstream(Some(s)) => {
            if s.name@ == EVENT_NAME@ {
                match (field_u32(s.fields@, FIELD_INDEX@), field_u32(s.fields@, FIELD_SIZE@)) {
                    (Some(i), Some(g)) => Some(SceneNewHypeEvent { gop_index: i, gop_size: g }),
                    _ => None,
                }
            } else {
                None
            }
        },
        _ => None,
    }
}

/// The event carries exactly the boundary `(gop_index, gop_size)`: the
/// boundary's name, then the index field, then the size field.
pub open spec fn encodes(ev: HostEvent, gop_index: u32, gop_size: u32) -> bool {
    match ev {
        HostEvent::CustomDownstream(Some(s)) => {
            &&& s.name@ == EVENT_NAME@
            &&& s.fields@.len() == 2
            &&& s.fields@[0].0@ == FIELD_INDEX@
            &&& s.fields@[0].1 == FieldValue::U32(gop_index)
            &&& s.fields@[1].0@ == FIELD_SIZE@
            &&& s.fields@[1].1 == FieldValue::U32(gop_size)
        },
        _ => false,
    }
}

pub(crate) fn same_text(a: &String, b: &str) -> (r: bool)
    ensures
        r == (a@ == b@),
{
    let owned = b.to_owned();
    *a == owned
}

fn find_u32(fields: &Vec<(String, FieldValue)>, name: &str) -> (r: Option<u32>)
    ensures
        r == field_u32(fields@, name@),
{
    let mut k: usize = 0;
    assert(fields@.skip(0) =~= fields@);
    while k < fields.len()
        invariant
            k <= fields@.len(),
            field_u32(fields@, name@) == field_u32(fields@.skip(k as int), name@),
        decreases fields@.len() - k,
    {
        assert(fields@.skip(k as int).drop_first() =~= fields@.skip(k + 1));
        if same_text(&fields[k].0, name) {
            return match fields[k].1 {
                FieldValue::U32(v) => Some(v),
                FieldValue::Other => None,
            };
        }
        k = k + 1;
    }
    None
}

impl SceneNewHypeEvent {
    /// Builds the control event that announces scene `gop_index` with
    /// scenes of `gop_size` frames.
    pub fn new(gop_index: u32, gop_size: u32) -> (r: HostEvent)
        ensures
            encodes(r, gop_index, gop_size),
    {
        let mut fields: Vec<(String, FieldValue)> = Vec::new();
        fields.push((FIELD_INDEX.to_owned(), FieldValue::U32(gop_index)));
        fields.push((FIELD_SIZE.to_owned(), FieldValue::U32(gop_size)));
        HostEvent::CustomDownstream(Some(EventStructure { name: EVENT_NAME.to_owned(), fields }))
    }

    /// Reads a scene boundary out of a control event. Any event that is not
    /// a custom downstream event with the boundary's name and both integer
    /// fields is not a boundary.
    pub fn parse(ev: &HostEvent) -> (r: Option<SceneNewHypeEvent>)
        ensures
            r == boundary_of(*ev),
    {
        match ev {
            HostEvent::CustomDownstream(Some(s)) => {
                if !same_text(&s.name, EVENT_NAME) {
                    return None;
                }
                let gop_index = find_u32(&s.fields, FIELD_INDEX);
                let gop_size = find_u32(&s.fields, FIELD_SIZE);
                match (gop_index, gop_size) {
                    (Some(i), Some(g)) => Some(SceneNewHypeEvent { gop_index: i, gop_size: g }),
                    _ => None,
                }
            },
            _ => None,
        }
    }
}

/// Encoding a boundary and decoding the event gives back the same pair, for
/// every index and size.
pub proof fn lemma_boundary_round_trip(ev: HostEvent, gop_index: u32, gop_size: u32)
    requires
        encodes(ev, gop_index, gop_size),
    ensures
        boundary_of(ev) == Some(SceneNewHypeEvent { gop_index, gop_size }),
{
    reveal_strlit("gop_index");
    reveal_strlit("gop_size");
    if let HostEvent::CustomDownstream(Some(s)) = ev {
        let f = s.fields@;
        assert(FIELD_INDEX@.len() == 9);
        assert(FIELD_SIZE@.len() == 8);
        assert(f[0].0@ != FIELD_SIZE@);
        assert(f.drop_first()[0] == f[1]);
        assert(field_u32(f, FIELD_INDEX@) == Some(gop_index));
        assert(field_u32(f.drop_first(), FIELD_SIZE@) == Some(gop_size));
    }
}

/// A custom event whose structure has another name is not a boundary,
/// whatever its fields.
pub proof fn lemma_foreign_name_not_boundary(s: EventStructure)
    requires
        s.name@ != EVENT_NAME@,
    ensures
        boundary_of(HostEvent::CustomDownstream(Some(s))) is None,
{
}

} // verus!
