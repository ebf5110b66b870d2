use wafel_core::pipeline::{DataLayout, FieldDef, FieldKind, Placement, PipelineError, PyPipeline, Value};
use wafel_core::simulation::StepFunction;
use wafel_core::timeline::Timeline;
use wafel_core::variable::{PyAddress, PyObjectBehavior, PyVariable};

/// Cell 0 counts frames; the other cells keep their values.
struct Ticker;

impl StepFunction for Ticker {
    fn step(&self, mem: &mut Vec<i64>) {
        mem[0] += 1;
    }
}

fn field(name: &str, offset: usize, kind: FieldKind, placement: Placement) -> FieldDef {
    let group = match placement {
        Placement::Object => "Object",
        _ => "Misc",
    };
    FieldDef {
        name: name.to_string(),
        offset,
        kind,
        placement,
        label: None,
        flag: None,
        group: group.to_string(),
    }
}

// Memory: 0 frame counter, 1 byte, 2 signed byte, 3 float, 4 address,
// objects at 10 (stride 4: active, behavior, x, spare) for 2 objects,
// surfaces at 20 (stride 2) for 2 surfaces, of which cell 5 says how many
// are live.
fn pipeline() -> PyPipeline<Ticker> {
    let mut power_on = vec![0i64; 24];
    power_on[10] = 1;
    power_on[11] = 0x8000;
    power_on[12] = 42;
    power_on[21] = 7;
    power_on[5] = 1;
    let layout = DataLayout {
        fields: vec![
            field("global_timer", 0, FieldKind::Int { bytes: 4, signed: false }, Placement::Global),
            field("byte", 1, FieldKind::Int { bytes: 1, signed: false }, Placement::Global),
            field("sbyte", 2, FieldKind::Int { bytes: 1, signed: true }, Placement::Global),
            field("speed", 3, FieldKind::Float, Placement::Global),
            field("target", 4, FieldKind::Address, Placement::Global),
            field("oPosX", 2, FieldKind::Int { bytes: 2, signed: true }, Placement::Object),
            field("normal", 1, FieldKind::Int { bytes: 8, signed: true }, Placement::Surface),
            field("oActive", 0, FieldKind::Int { bytes: 8, signed: true }, Placement::Object),
            field("far", 500, FieldKind::Int { bytes: 8, signed: true }, Placement::Global),
            FieldDef {
                name: "invisible".to_string(),
                offset: 3,
                kind: FieldKind::Int { bytes: 4, signed: false },
                placement: Placement::Object,
                label: Some("Invisible".to_string()),
                flag: Some(0x10),
                group: "Object".to_string(),
            },
        ],
        object_base: 10,
        object_stride: 4,
        object_count: 2,
        active_offset: 0,
        behavior_offset: 1,
        surface_base: 20,
        surface_stride: 2,
        surface_count: 2,
        surface_live_cell: 5,
        constants: vec![
            (b"ACT_IDLE".to_vec(), 0x0C400201),
            (b"ACT_FLAG_AIR".to_vec(), 0x800),
            (b"ACT_GROUP_MASK".to_vec(), 0x1C0),
            (b"ACT_ID_MASK".to_vec(), 0x1FF),
            (b"ACT_TRIPLE_JUMP".to_vec(), 0x01000882),
            (b"MARIO_HEIGHT".to_vec(), 160),
            (b"ACT_x_Y".to_vec(), -1),
        ],
    };
    let timeline = Timeline::new(Ticker, power_on, 4);
    let symbols = vec![("bhvMario".to_string(), 0x8000u64), ("gMarioState".to_string(), 0x9000u64)];
    PyPipeline::new(timeline, layout, symbols)
}

#[test]
fn read_global_field_on_a_frame() {
    let p = pipeline();
    let v = PyVariable::new("global_timer").with_frame(7);
    assert_eq!(p.read(&v), Ok(Value::Int(7)));
    assert_eq!(p.path_read(3, "global_timer"), Ok(Value::Int(3)));
    assert_eq!(p.path_address(3, "speed"), Ok(PyAddress { address: 3 }));
}

#[test]
fn write_then_read_truncates_to_the_field_width() {
    let mut p = pipeline();
    let v = PyVariable::new("byte").with_frame(5);
    assert_eq!(p.write(&v, Value::Int(300)), Ok(()));
    assert_eq!(p.read(&v), Ok(Value::Int(44)));
    let s = PyVariable::new("sbyte").with_frame(5);
    assert_eq!(p.write(&s, Value::Int(200)), Ok(()));
    assert_eq!(p.read(&s), Ok(Value::Int(-56)));
    assert_eq!(p.write(&s, Value::Int(-1)), Ok(()));
    assert_eq!(p.read(&s), Ok(Value::Int(-1)));
    assert_eq!(p.write(&v, Value::Int(-1)), Ok(()));
    assert_eq!(p.read(&v), Ok(Value::Int(255)));
    let x = PyVariable::new("oPosX").with_frame(5).with_object(0);
    assert_eq!(p.write(&x, Value::Int(70000)), Ok(()));
    assert_eq!(p.read(&x), Ok(Value::Int(4464)));
}

#[test]
fn write_is_an_edit_of_its_frame_only() {
    let mut p = pipeline();
    let v = PyVariable::new("byte").with_frame(5);
    p.write(&v, Value::Int(9)).unwrap();
    assert_eq!(p.read(&v.with_frame(4)), Ok(Value::Int(0)));
    assert_eq!(p.read(&v.with_frame(6)), Ok(Value::Int(9)));
    p.insert_frame(3).unwrap();
    assert_eq!(p.read(&v), Ok(Value::Int(0)));
    assert_eq!(p.read(&v.with_frame(6)), Ok(Value::Int(9)));
}

#[test]
fn float_and_address_round_trip() {
    let mut p = pipeline();
    let f = PyVariable::new("speed").with_frame(2);
    let bits = 1.5f64.to_bits();
    assert_eq!(p.write(&f, Value::Float(bits)), Ok(()));
    assert_eq!(p.read(&f), Ok(Value::Float(bits)));
    assert_eq!(p.is_float(&f), Ok(true));
    assert_eq!(p.is_int(&f), Ok(false));
    let a = PyVariable::new("target").with_frame(2);
    assert_eq!(p.write(&a, Value::Address(PyAddress { address: 0x1234 })), Ok(()));
    assert_eq!(p.read(&a), Ok(Value::Address(PyAddress { address: 0x1234 })));
}

#[test]
fn reset_restores_the_simulated_value() {
    let mut p = pipeline();
    let v = PyVariable::new("global_timer").with_frame(4);
    p.write(&v, Value::Int(100)).unwrap();
    assert_eq!(p.read(&v), Ok(Value::Int(100)));
    assert_eq!(p.read(&v.with_frame(6)), Ok(Value::Int(102)));
    assert_eq!(p.reset(&v), Ok(()));
    assert_eq!(p.read(&v), Ok(Value::Int(4)));
    assert_eq!(p.read(&v.with_frame(6)), Ok(Value::Int(6)));
}

#[test]
fn object_fields_need_an_active_object() {
    let mut p = pipeline();
    let x = PyVariable::new("oPosX").with_frame(1);
    assert_eq!(p.read(&x), Err(PipelineError::ResolutionFailure));
    assert_eq!(p.read(&x.with_object(0)), Ok(Value::Int(42)));
    assert_eq!(p.read(&x.with_object(1)), Err(PipelineError::InactiveReference));
    assert_eq!(p.read(&x.with_object(2)), Err(PipelineError::OutOfRange));
    let mario = PyObjectBehavior { behavior: 0x8000 };
    let other = PyObjectBehavior { behavior: 0x9000 };
    assert_eq!(p.read(&x.with_object(0).with_object_behavior(&mario)), Ok(Value::Int(42)));
    assert_eq!(
        p.read(&x.with_object(0).with_object_behavior(&other)),
        Err(PipelineError::InactiveReference)
    );
    assert_eq!(p.object_behavior(1, 0), Ok(Some(mario)));
    assert_eq!(p.object_behavior(1, 1), Ok(None));
    assert_eq!(p.object_behavior(1, 2), Err(PipelineError::OutOfRange));
    assert_eq!(p.object_behavior_name(&mario), Ok("Mario".to_string()));
    assert_eq!(p.object_behavior_name(&other), Ok("gMarioState".to_string()));
    assert_eq!(
        p.object_behavior_name(&PyObjectBehavior { behavior: 1234 }),
        Ok("Object[1234]".to_string())
    );
    assert_eq!(p.object_behavior_name(&PyObjectBehavior { behavior: 0 }), Ok("Object[0]".to_string()));
    p.invalidate();
    assert_eq!(p.object_behavior(1, 0), Err(PipelineError::InvalidatedHandle));
}

#[test]
fn surface_fields_need_a_surface_slot() {
    let p = pipeline();
    let n = PyVariable::new("normal").with_frame(0);
    assert_eq!(p.read(&n), Err(PipelineError::ResolutionFailure));
    assert_eq!(p.read(&n.with_surface(0)), Ok(Value::Int(7)));
    assert_eq!(p.read(&n.with_surface(1)), Err(PipelineError::InactiveReference));
    assert_eq!(p.read(&n.with_surface(2)), Err(PipelineError::OutOfRange));
}

#[test]
fn resolution_failures() {
    let mut p = pipeline();
    assert_eq!(p.read(&PyVariable::new("nope").with_frame(0)), Err(PipelineError::ResolutionFailure));
    assert_eq!(p.read(&PyVariable::new("byte")), Err(PipelineError::ResolutionFailure));
    assert_eq!(p.read(&PyVariable::new("far").with_frame(0)), Err(PipelineError::ResolutionFailure));
    let v = PyVariable::new("byte").with_frame(0);
    assert_eq!(p.write(&v, Value::Float(0)), Err(PipelineError::ResolutionFailure));
    assert_eq!(p.is_int(&PyVariable::new("nope")), Err(PipelineError::ResolutionFailure));
    assert_eq!(p.field_offset("oPosX"), Ok(2));
    assert_eq!(p.field_offset("nope"), Err(PipelineError::ResolutionFailure));
}

#[test]
fn invalidated_pipeline_refuses_every_call() {
    let mut p = pipeline();
    let v = PyVariable::new("byte").with_frame(0);
    p.invalidate();
    assert!(!p.is_live());
    assert_eq!(p.read(&v), Err(PipelineError::InvalidatedHandle));
    assert_eq!(p.write(&v, Value::Int(1)), Err(PipelineError::InvalidatedHandle));
    assert_eq!(p.reset(&v), Err(PipelineError::InvalidatedHandle));
    assert_eq!(p.insert_frame(0), Err(PipelineError::InvalidatedHandle));
    assert_eq!(p.delete_frame(0), Err(PipelineError::InvalidatedHandle));
    assert_eq!(p.set_hotspot("c", 1), Err(PipelineError::InvalidatedHandle));
    assert_eq!(
        p.balance_distribution(1_000_000),
        Err(PipelineError::InvalidatedHandle)
    );
}

#[test]
fn variable_qualifiers_make_new_values() {
    let v = PyVariable::new("oPosX");
    let q = v.with_frame(3).with_object(2).with_surface(1);
    assert_eq!(v.frame(), None);
    assert_eq!(q.frame(), Some(3));
    assert_eq!(q.object(), Some(2));
    assert_eq!(q.surface(), Some(1));
    assert_eq!(q.name(), "oPosX");
    let b = PyObjectBehavior { behavior: 5 };
    let qb = q.with_object_behavior(&b);
    assert_eq!(qb.object_behavior(), Some(b));
    assert_eq!(qb.without_object_behavior(), q);
    assert_ne!(q, v);
    assert_eq!(q.without_frame().without_object().without_surface(), v);
    assert_ne!(PyVariable::new("a").with_frame(1), PyVariable::new("b").with_frame(1));
}

#[test]
fn action_names_keep_only_actions() {
    let p = pipeline();
    let names = p.action_names().unwrap();
    assert_eq!(
        names,
        vec![
            (0x0C400201, b"idle".to_vec()),
            (0x01000882, b"triple jump".to_vec()),
            (0xFFFF_FFFF, b"x y".to_vec()),
        ]
    );
}

#[test]
fn field_metadata_queries() {
    let mut p = pipeline();
    let inv = PyVariable::new("invisible");
    assert_eq!(p.label(&inv), Ok(Some("Invisible".to_string())));
    assert_eq!(p.label(&PyVariable::new("byte")), Ok(None));
    assert_eq!(p.label(&PyVariable::new("nope")), Err(PipelineError::ResolutionFailure));
    assert_eq!(p.is_bit_flag(&inv), Ok(true));
    assert_eq!(p.is_bit_flag(&PyVariable::new("byte")), Ok(false));
    assert_eq!(
        p.variable_group("Object"),
        Ok(vec![PyVariable::new("oPosX"), PyVariable::new("oActive"), PyVariable::new("invisible")])
    );
    assert_eq!(p.variable_group("None"), Ok(vec![]));
    p.invalidate();
    assert_eq!(p.variable_group("Object"), Err(PipelineError::InvalidatedHandle));
    assert_eq!(p.is_bit_flag(&inv), Err(PipelineError::InvalidatedHandle));
}

#[test]
fn base_slot_is_the_power_on_memory() {
    let mut p = pipeline();
    let v = PyVariable::new("byte").with_frame(0);
    p.write(&v, Value::Int(3)).unwrap();
    assert_eq!(p.read(&v), Ok(Value::Int(3)));
    assert_eq!(p.timeline_ref().base_slot()[1], 0);
    assert_eq!(p.timeline_ref().base_slot().len(), 24);
}

#[test]
fn pipeline_hotspot_and_balance() {
    let mut p = pipeline();
    let v = PyVariable::new("global_timer").with_frame(300);
    assert_eq!(p.timeline_ref().resimulation_cost(300), 300);
    p.set_hotspot("cursor", 300).unwrap();
    p.balance_distribution(0).unwrap();
    assert_eq!(p.timeline_ref().resimulation_cost(300), 300);
    p.balance_distribution(1_000_000_000).unwrap();
    assert_eq!(p.timeline_ref().resimulation_cost(300), 0);
    assert_eq!(p.read(&v), Ok(Value::Int(300)));
    p.set_hotspot("cursor", 100).unwrap();
    p.balance_distribution(1_000_000_000).unwrap();
    assert_eq!(p.timeline_ref().resimulation_cost(100), 0);
}

#[test]
fn reset_undoes_a_write_that_deactivated_its_object() {
    let mut p = pipeline();
    let active = PyVariable::new("oActive").with_frame(3).with_object(0);
    let x = PyVariable::new("oPosX").with_frame(3).with_object(0);
    assert_eq!(p.read(&x), Ok(Value::Int(42)));
    assert_eq!(p.write(&active, Value::Int(0)), Ok(()));
    assert_eq!(p.read(&x), Err(PipelineError::InactiveReference));
    assert_eq!(p.reset(&active), Ok(()));
    assert_eq!(p.read(&x), Ok(Value::Int(42)));
    assert_eq!(p.read(&active), Ok(Value::Int(1)));
    assert_eq!(p.timeline_ref().edit(3), None);
}

#[test]
fn reset_keeps_other_stores_of_the_frame() {
    let mut p = pipeline();
    let b = PyVariable::new("byte").with_frame(2);
    let s = PyVariable::new("sbyte").with_frame(2);
    p.write(&b, Value::Int(5)).unwrap();
    p.write(&s, Value::Int(6)).unwrap();
    assert_eq!(p.reset(&b), Ok(()));
    assert_eq!(p.read(&b), Ok(Value::Int(0)));
    assert_eq!(p.read(&s), Ok(Value::Int(6)));
    assert_eq!(p.reset(&b), Ok(()));
    assert_eq!(p.read(&s), Ok(Value::Int(6)));
    assert_eq!(p.reset(&PyVariable::new("byte").with_frame(9)), Ok(()));
    assert_eq!(p.timeline_ref().edit(9), None);
    assert_eq!(p.reset(&PyVariable::new("byte")), Err(PipelineError::ResolutionFailure));
    assert_eq!(
        p.reset(&PyVariable::new("oPosX").with_frame(2).with_object(5)),
        Err(PipelineError::OutOfRange)
    );
}
