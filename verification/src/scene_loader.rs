//! The layout of a scene description: its blocks, its entries and their
//! values.
//!
//! A description is a text of lines. The blocks `camera`, `materials` and
//! `scene` each end with a line that holds `}`; a line that begins with `#`
//! is a comment. What is read is handed out as spans of the text; numbers are
//! left as the caller finds them there.

use vstd::prelude::*;
use vstd::string::*;
use crate::text::{
    begins_with,
    contains_byte,
    find,
    find_byte,
    has,
    is_word,
    same_text,
    split_tokens,
    starts_with,
    tokens,
    trim,
    trim_span,
    Span,
};

verus! {

/// The byte that ends a line.
pub const NEWLINE: u8 = 10;

/// The byte `#`, which begins a comment.
pub const HASH: u8 = 35;

/// The byte `)`, which ends an entry of the scene.
pub const CLOSE_PAREN: u8 = 41;

/// The byte `:`, which parts a name from its value.
pub const COLON: u8 = 58;

/// The byte `}`, which ends a block.
pub const CLOSE_BRACE: u8 = 125;

/// Three numbers, as they stand in the text.
#[derive(Debug, Copy, Clone, PartialEq, Eq)]
pub struct Triple {
    pub x: Span,
    pub y: Span,
    pub z: Span,
}

/// A transform as the text gives it. What the text leaves out is `None`.
#[derive(Debug, Copy, Clone, PartialEq, Eq)]
pub struct TransformText {
    pub position: Option<Triple>,
    pub rotation: Option<Triple>,
    pub scale: Option<Triple>,
}

/// A camera as the text gives it.
#[derive(Debug, Copy, Clone, PartialEq, Eq)]
pub struct CameraText {
    pub transform: TransformText,
    pub focal_length: Option<Span>,
    pub focal_plane: Option<Span>,
    pub f_stop: Option<Span>,
}

/// A material as the text gives it.
#[derive(Debug, Copy, Clone, PartialEq, Eq)]
pub struct MaterialText {
    pub diffuse: Option<Triple>,
    pub roughness: Option<Span>,
    pub metallic: Option<Span>,
    pub emissive: Option<Span>,
}

/// A material under its name.
#[derive(Debug, Copy, Clone, PartialEq, Eq)]
pub struct MaterialEntry {
    pub name: Span,
    pub material: MaterialText,
}

/// A shape as the text gives it.
#[derive(Debug, Copy, Clone, PartialEq, Eq)]
pub enum ShapeText {
    /// No shape has been named yet.
    Unset,
    /// A sphere, with its radius where the text gives one.
    Sphere(Option<Span>),
    /// A box, with its half extents where the text gives them.
    Box(Option<Triple>),
}

/// An object as the text gives it. The material is the place of its entry
/// among the materials read.
#[derive(Debug, Copy, Clone, PartialEq, Eq)]
pub struct ObjectText {
    pub shape: ShapeText,
    pub material: Option<usize>,
    pub transform: TransformText,
}

/// The block that the reader is in.
#[derive(Debug, Copy, Clone, PartialEq, Eq)]
pub enum LoadState {
    Main,
    Camera,
    Materials,
    Scene,
}

/// Why a description cannot be read. The span is that of the line at fault.
#[derive(Debug, Copy, Clone, PartialEq, Eq)]
pub enum LoadError {
    /// A name is followed by fewer values than it takes.
    MissingValue(Span),
    /// An object names a material that no line before it has given.
    UnknownMaterial(Span),
}

/// The transform that leaves everything out.
pub open spec fn no_transform() -> TransformText {
    TransformText { position: None, rotation: None, scale: None }
}

/// The material that leaves everything out.
pub open spec fn no_material() -> MaterialText {
    MaterialText { diffuse: None, roughness: None, metallic: None, emissive: None }
}

/// The three tokens from place `i` on, where there are three.
pub open spec fn triple_at(list: Seq<Span>, i: int) -> Option<Triple> {
    if 0 <= i && i + 3 <= list.len() {
        Some(Triple { x: list[i], y: list[i + 1], z: list[i + 2] })
    } else {
        None
    }
}

/// The token at place `i`, where there is one.
pub open spec fn single_at(list: Seq<Span>, i: int) -> Option<Span> {
    if 0 <= i < list.len() {
        Some(list[i])
    } else {
        None
    }
}

/// The material that the tokens from place `i` on make of `so_far`. A name
/// takes the tokens after it as its values; a token that is no name is
/// passed over. `None` where a name has too few tokens after it.
pub open spec fn material_from(
    text: Seq<u8>,
    list: Seq<Span>,
    i: int,
    so_far: MaterialText,
) -> Option<MaterialText>
    decreases list.len() - i,
{
    if i < 0 || i >= list.len() {
        Some(so_far)
    } else if list[i].of(text) == "diffuse".spec_bytes() {
        match triple_at(list, i + 1) {
            Some(value) => material_from(
                text,
                list,
                i + 4,
                MaterialText { diffuse: Some(value), ..so_far },
            ),
            None => None,
        }
    } else if list[i].of(text) == "roughness".spec_bytes() {
        match single_at(list, i + 1) {
            Some(value) => material_from(
                text,
                list,
                i + 2,
                MaterialText { roughness: Some(value), ..so_far },
            ),
            None => None,
        }
    } else if list[i].of(text) == "metallic".spec_bytes() {
        match single_at(list, i + 1) {
            Some(value) => material_from(
                text,
                list,
                i + 2,
                MaterialText { metallic: Some(value), ..so_far },
            ),
            None => None,
        }
    } else if list[i].of(text) == "emissive".spec_bytes() {
        match single_at(list, i + 1) {
            Some(value) => material_from(
                text,
                list,
                i + 2,
                MaterialText { emissive: Some(value), ..so_far },
            ),
            None => None,
        }
    } else {
        material_from(text, list, i + 1, so_far)
    }
}

/// The transform that the tokens from place `i` on make of `so_far`.
pub open spec fn transform_from(
    text: Seq<u8>,
    list: Seq<Span>,
    i: int,
    so_far: TransformText,
) -> Option<TransformText>
    decreases list.len() - i,
{
    if i < 0 || i >= list.len() {
        Some(so_far)
    } else if list[i].of(text) == "position".spec_bytes() {
        match triple_at(list, i + 1) {
            Some(value) => transform_from(
                text,
                list,
                i + 4,
                TransformText { position: Some(value), ..so_far },
            ),
            None => None,
        }
    } else if list[i].of(text) == "rotation".spec_bytes() {
        match triple_at(list, i + 1) {
            Some(value) => transform_from(
                text,
                list,
                i + 4,
                TransformText { rotation: Some(value), ..so_far },
            ),
            None => None,
        }
    } else if list[i].of(text) == "scale".spec_bytes() {
        match triple_at(list, i + 1) {
            Some(value) => transform_from(
                text,
                list,
                i + 4,
                TransformText { scale: Some(value), ..so_far },
            ),
            None => None,
        }
    } else {
        transform_from(text, list, i + 1, so_far)
    }
}

/// The material that a stretch of text describes.
pub open spec fn material_of(text: Seq<u8>, data: Span) -> Option<MaterialText> {
    material_from(text, tokens(text, data.start as int, data.end as int), 0, no_material())
}

/// The transform that a stretch of text describes.
pub open spec fn transform_of(text: Seq<u8>, data: Span) -> Option<TransformText> {
    transform_from(text, tokens(text, data.start as int, data.end as int), 0, no_transform())
}

/// The name and the value of a line: what stands before its first colon,
/// and what stands after it. `None` for a line without a colon.
pub open spec fn split_colon(text: Seq<u8>, line: Span) -> Option<(Span, Span)> {
    let colon = find(text, COLON, line.start as int, line.end as int);
    if colon < line.end {
        Some(
            (
                Span { start: line.start, end: colon as usize },
                Span { start: (colon + 1) as usize, end: line.end },
            ),
        )
    } else {
        None
    }
}

/// The place of the material of the given name: of the last one, where
/// several lines have given the name.
pub open spec fn material_named(
    text: Seq<u8>,
    materials: Seq<MaterialEntry>,
    name: Span,
) -> Option<usize>
    decreases materials.len(),
{
    if materials.len() == 0 {
        None
    } else if materials.last().name.of(text) == name.of(text) {
        Some((materials.len() - 1) as usize)
    } else {
        material_named(text, materials.drop_last(), name)
    }
}

/// The block that a line outside the blocks opens, if it opens one.
pub open spec fn block_opened(text: Seq<u8>, line: Span) -> LoadState {
    if begins_with(text, line, "scene".spec_bytes()) {
        LoadState::Scene
    } else if begins_with(text, line, "materials".spec_bytes()) {
        LoadState::Materials
    } else if begins_with(text, line, "camera".spec_bytes()) {
        LoadState::Camera
    } else {
        LoadState::Main
    }
}

/// Whether a line is a comment.
pub open spec fn is_comment(text: Seq<u8>, line: Span) -> bool {
    line.start < line.end && text[line.start as int] == HASH
}

/// The camera after a line of the camera block.
pub open spec fn camera_after(text: Seq<u8>, camera: CameraText, line: Span) -> Result<
    CameraText,
    LoadError,
> {
    match split_colon(text, line) {
        Some((name, data)) => {
            let value = trim(text, data);
            if name.of(text) == "transform".spec_bytes() {
                match transform_of(text, value) {
                    Some(transform) => Ok(CameraText { transform, ..camera }),
                    None => Err(LoadError::MissingValue(line)),
                }
            } else if name.of(text) == "focal_length".spec_bytes() {
                Ok(CameraText { focal_length: Some(value), ..camera })
            } else if name.of(text) == "focal_plane".spec_bytes() {
                Ok(CameraText { focal_plane: Some(value), ..camera })
            } else if name.of(text) == "f_stop".spec_bytes() {
                Ok(CameraText { f_stop: Some(value), ..camera })
            } else {
                Ok(camera)
            }
        },
        None => Ok(camera),
    }
}

/// The shape after a line that gives the value `value` under the name `name`.
pub open spec fn shape_after(
    text: Seq<u8>,
    shape: ShapeText,
    name: Span,
    value: Span,
    line: Span,
) -> Result<ShapeText, LoadError> {
    match shape {
        ShapeText::Unset => Ok(shape),
        ShapeText::Sphere(_) => if name.of(text) == "radius".spec_bytes() {
            Ok(ShapeText::Sphere(Some(value)))
        } else {
            Ok(shape)
        },
        ShapeText::Box(_) => if name.of(text) == "bounds".spec_bytes() {
            match triple_at(tokens(text, value.start as int, value.end as int), 0) {
                Some(bounds) => Ok(ShapeText::Box(Some(bounds))),
                None => Err(LoadError::MissingValue(line)),
            }
        } else {
            Ok(shape)
        },
    }
}

/// The object in the making after a line of the scene block.
pub open spec fn object_after(
    text: Seq<u8>,
    materials: Seq<MaterialEntry>,
    object: ObjectText,
    line: Span,
) -> Result<ObjectText, LoadError> {
    if begins_with(text, line, "sphere".spec_bytes()) {
        Ok(ObjectText { shape: ShapeText::Sphere(None), ..object })
    } else if begins_with(text, line, "box".spec_bytes()) {
        Ok(ObjectText { shape: ShapeText::Box(None), ..object })
    } else {
        match split_colon(text, line) {
            Some((name, data)) => {
                let value = trim(text, data);
                if name.of(text) == "material".spec_bytes() {
                    match material_named(text, materials, value) {
                        Some(place) => Ok(ObjectText { material: Some(place), ..object }),
                        None => Err(LoadError::UnknownMaterial(line)),
                    }
                } else if name.of(text) == "transform".spec_bytes() {
                    match transform_of(text, value) {
                        Some(transform) => Ok(ObjectText { transform, ..object }),
                        None => Err(LoadError::MissingValue(line)),
                    }
                } else {
                    match shape_after(text, object.shape, name, value, line) {
                        Ok(shape) => Ok(ObjectText { shape, ..object }),
                        Err(e) => Err(e),
                    }
                }
            },
            None => Ok(object),
        }
    }
}

/// What has been read of a description so far.
#[verifier::ext_equal]
pub struct LoadProgress {
    /// The block that the reader is in.
    pub state: LoadState,
    /// The camera.
    pub camera: CameraText,
    /// The object in the making. An entry of the scene starts from what the
    /// entry before it has left.
    pub template: ObjectText,
    /// The materials, in the order of their lines.
    pub materials: Seq<MaterialEntry>,
    /// The objects, in the order of their entries.
    pub objects: Seq<ObjectText>,
}

impl LoadProgress {
    /// Nothing has been read.
    pub open spec fn start() -> LoadProgress {
        LoadProgress {
            state: LoadState::Main,
            camera: CameraText {
                transform: no_transform(),
                focal_length: None,
                focal_plane: None,
                f_stop: None,
            },
            template: ObjectText {
                shape: ShapeText::Unset,
                material: None,
                transform: no_transform(),
            },
            materials: Seq::empty(),
            objects: Seq::empty(),
        }
    }

    /// What has been read after one more line. `line` is the line without
    /// the white space at its ends. A comment changes nothing. A line that
    /// holds `}` ends the block. Outside the blocks a line can open one;
    /// inside a block a line is read as an entry of the block. In the scene
    /// block a line that holds `)` ends an object.
    pub open spec fn read_line(self, text: Seq<u8>, line: Span) -> Result<LoadProgress, LoadError> {
        if is_comment(text, line) {
            Ok(self)
        } else if has(text, CLOSE_BRACE, line) {
            Ok(LoadProgress { state: block_opened(text, line), ..self })
        } else {
            match self.state {
                LoadState::Main => Ok(LoadProgress { state: block_opened(text, line), ..self }),
                LoadState::Camera => match camera_after(text, self.camera, line) {
                    Ok(camera) => Ok(LoadProgress { camera, ..self }),
                    Err(e) => Err(e),
                },
                LoadState::Materials => match split_colon(text, line) {
                    Some((name, data)) => match material_of(text, data) {
                        Some(material) => Ok(
                            LoadProgress {
                                materials: self.materials.push(MaterialEntry { name, material }),
                                ..self
                            },
                        ),
                        None => Err(LoadError::MissingValue(line)),
                    },
                    None => Ok(self),
                },
                LoadState::Scene => match object_after(text, self.materials, self.template, line) {
                    Ok(template) => Ok(
                        LoadProgress {
                            template,
                            objects: if has(text, CLOSE_PAREN, line) {
                                self.objects.push(template)
                            } else {
                                self.objects
                            },
                            ..self
                        },
                    ),
                    Err(e) => Err(e),
                },
            }
        }
    }

    /// What has been read after the lines of `text` from place `from` on.
    /// Reading stops at the first line at fault.
    pub open spec fn read_from(self, text: Seq<u8>, from: int) -> Result<LoadProgress, LoadError>
        decreases text.len() - from,
    {
        if from < 0 || from >= text.len() {
            Ok(self)
        } else {
            let end = find(text, NEWLINE, from, text.len() as int);
            let line = trim(text, Span { start: from as usize, end: end as usize });
            match self.read_line(text, line) {
                Ok(next) => if from <= end < text.len() {
                    next.read_from(text, end + 1)
                } else {
                    Ok(next)
                },
                Err(e) => Err(e),
            }
        }
    }
}

impl Triple {
    /// Whether the three spans lie within a text.
    pub open spec fn within(self, text: Seq<u8>) -> bool {
        self.x.within(text) && self.y.within(text) && self.z.within(text)
    }
}

/// Whether a span that may be missing lies within a text.
pub open spec fn span_within(span: Option<Span>, text: Seq<u8>) -> bool {
    span matches Some(s) ==> s.within(text)
}

/// Whether a triple that may be missing lies within a text.
pub open spec fn triple_within(triple: Option<Triple>, text: Seq<u8>) -> bool {
    triple matches Some(t) ==> t.within(text)
}

impl TransformText {
    /// Whether every span of the transform lies within a text.
    pub open spec fn within(self, text: Seq<u8>) -> bool {
        &&& triple_within(self.position, text)
        &&& triple_within(self.rotation, text)
        &&& triple_within(self.scale, text)
    }
}

impl MaterialText {
    /// Whether every span of the material lies within a text.
    pub open spec fn within(self, text: Seq<u8>) -> bool {
        &&& triple_within(self.diffuse, text)
        &&& span_within(self.roughness, text)
        &&& span_within(self.metallic, text)
        &&& span_within(self.emissive, text)
    }
}

impl CameraText {
    /// Whether every span of the camera lies within a text.
    pub open spec fn within(self, text: Seq<u8>) -> bool {
        &&& self.transform.within(text)
        &&& span_within(self.focal_length, text)
        &&& span_within(self.focal_plane, text)
        &&& span_within(self.f_stop, text)
    }
}

impl ObjectText {
    /// Whether every span of the object lies within a text, and its
    /// material is one of the first `materials` materials.
    pub open spec fn within(self, text: Seq<u8>, materials: int) -> bool {
        &&& self.transform.within(text)
        &&& self.material matches Some(place) ==> place < materials
        &&& self.shape matches ShapeText::Sphere(radius) ==> span_within(radius, text)
        &&& self.shape matches ShapeText::Box(bounds) ==> triple_within(bounds, text)
    }
}

impl LoadProgress {
    /// Whether all that has been read lies within a text, and every object
    /// has its material among the materials read.
    pub open spec fn within(self, text: Seq<u8>) -> bool {
        &&& self.camera.within(text)
        &&& self.template.within(text, self.materials.len() as int)
        &&& forall|i: int|
            0 <= i < self.materials.len() ==> (#[trigger] self.materials[i]).name.within(text)
                && self.materials[i].material.within(text)
        &&& forall|i: int|
            0 <= i < self.objects.len() ==> (#[trigger] self.objects[i]).within(
                text,
                self.materials.len() as int,
            )
    }
}

/// The three tokens from place `i` on.
pub fn get_vec(list: &Vec<Span>, i: usize) -> (value: Option<Triple>)
    ensures
        value == triple_at(list@, i as int),
{
    if i <= list.len() && list.len() - i >= 3 {
        Some(Triple { x: list[i], y: list[i + 1], z: list[i + 2] })
    } else {
        None
    }
}

/// The token at place `i`.
pub fn get_float(list: &Vec<Span>, i: usize) -> (value: Option<Span>)
    ensures
        value == single_at(list@, i as int),
{
    if i < list.len() {
        Some(list[i])
    } else {
        None
    }
}

/// Reads a material from a stretch of text: the names `diffuse`, with three
/// values, and `roughness`, `metallic` and `emissive`, with one value each.
/// `None` where a name has too few values after it.
pub fn parse_material(text: &[u8], data: Span) -> (material: Option<MaterialText>)
    requires
        data.within(text@),
    ensures
        material == material_of(text@, data),
        material matches Some(m) ==> m.within(text@),
{
    let list = split_tokens(text, data);
    let mut material = MaterialText {
        diffuse: None,
        roughness: None,
        metallic: None,
        emissive: None,
    };
    let mut i: usize = 0;
    while i < list.len()
        invariant
            data.within(text@),
            list@ == tokens(text@, data.start as int, data.end as int),
            forall|k: int| 0 <= k < list.len() ==> (#[trigger] list[k]).inside(data),
            material.within(text@),
            material_from(text@, list@, i as int, material) == material_of(text@, data),
        decreases list.len() - i,
    {
        let token = list[i];
        if is_word(text, token, "diffuse".as_bytes()) {
            match get_vec(&list, i + 1) {
                Some(value) => {
                    material.diffuse = Some(value);
                    i = i + 4;
                },
                None => {
                    return None;
                },
            }
        } else if is_word(text, token, "roughness".as_bytes()) {
            match get_float(&list, i + 1) {
                Some(value) => {
                    material.roughness = Some(value);
                    i = i + 2;
                },
                None => {
                    return None;
                },
            }
        } else if is_word(text, token, "metallic".as_bytes()) {
            match get_float(&list, i + 1) {
                Some(value) => {
                    material.metallic = Some(value);
                    i = i + 2;
                },
                None => {
                    return None;
                },
            }
        } else if is_word(text, token, "emissive".as_bytes()) {
            match get_float(&list, i + 1) {
                Some(value) => {
                    material.emissive = Some(value);
                    i = i + 2;
                },
                None => {
                    return None;
                },
            }
        } else {
            i = i + 1;
        }
    }
    Some(material)
}

/// Reads a transform from a stretch of text: the names `position`,
/// `rotation` and `scale`, with three values each. `None` where a name has
/// too few values after it.
pub fn parse_transform(text: &[u8], data: Span) -> (transform: Option<TransformText>)
    requires
        data.within(text@),
    ensures
        transform == transform_of(text@, data),
        transform matches Some(t) ==> t.within(text@),
{
    let list = split_tokens(text, data);
    let mut transform = TransformText { position: None, rotation: None, scale: None };
    let mut i: usize = 0;
    while i < list.len()
        invariant
            data.within(text@),
            list@ == tokens(text@, data.start as int, data.end as int),
            forall|k: int| 0 <= k < list.len() ==> (#[trigger] list[k]).inside(data),
            transform.within(text@),
            transform_from(text@, list@, i as int, transform) == transform_of(text@, data),
        decreases list.len() - i,
    {
        let token = list[i];
        if is_word(text, token, "position".as_bytes()) {
            match get_vec(&list, i + 1) {
                Some(value) => {
                    transform.position = Some(value);
                    i = i + 4;
                },
                None => {
                    return None;
                },
            }
        } else if is_word(text, token, "rotation".as_bytes()) {
            match get_vec(&list, i + 1) {
                Some(value) => {
                    transform.rotation = Some(value);
                    i = i + 4;
                },
                None => {
                    return None;
                },
            }
        } else if is_word(text, token, "scale".as_bytes()) {
            match get_vec(&list, i + 1) {
                Some(value) => {
                    transform.scale = Some(value);
                    i = i + 4;
                },
                None => {
                    return None;
                },
            }
        } else {
            i = i + 1;
        }
    }
    Some(transform)
}

/// Parts a line at its first colon into a name and a value.
pub fn split_once(text: &[u8], line: Span) -> (parts: Option<(Span, Span)>)
    requires
        line.within(text@),
    ensures
        parts == split_colon(text@, line),
        parts matches Some((name, data)) ==> name.inside(line) && data.inside(line),
{
    let colon = find_byte(text, COLON, line.start, line.end);
    if colon < line.end {
        Some((Span { start: line.start, end: colon }, Span { start: colon + 1, end: line.end }))
    } else {
        None
    }
}

/// Looks a material up by its name.
pub fn find_material(text: &[u8], materials: &Vec<MaterialEntry>, name: Span) -> (place: Option<
    usize,
>)
    requires
        name.within(text@),
        forall|i: int|
            0 <= i < materials.len() ==> (#[trigger] materials[i]).name.within(text@),
    ensures
        place == material_named(text@, materials@, name),
        place matches Some(p) ==> p < materials.len(),
{
    let mut i: usize = materials.len();
    proof {
        assert(materials@.take(materials.len() as int) =~= materials@);
    }
    while i > 0
        invariant
            i <= materials.len(),
            name.within(text@),
            forall|i: int|
            0 <= i < materials.len() ==> (#[trigger] materials[i]).name.within(text@),
            material_named(text@, materials@, name) == material_named(
                text@,
                materials@.take(i as int),
                name,
            ),
        decreases i,
    {
        proof {
            assert(materials@.take(i as int).drop_last() =~= materials@.take(i as int - 1));
        }
        i = i - 1;
        if same_text(text, materials[i].name, name) {
            return Some(i);
        }
    }
    None
}

/// A scene description as read from a text: the camera, the materials in the
/// order of their lines, and the objects in the order of their entries.
#[derive(Debug)]
pub struct SceneDescription {
    pub camera: CameraText,
    pub materials: Vec<MaterialEntry>,
    pub objects: Vec<ObjectText>,
}

/// The reader of a description, line by line.
struct Loader {
    state: LoadState,
    camera: CameraText,
    template: ObjectText,
    materials: Vec<MaterialEntry>,
    objects: Vec<ObjectText>,
}

impl View for Loader {
    type V = LoadProgress;

    closed spec fn view(&self) -> LoadProgress {
        LoadProgress {
            state: self.state,
            camera: self.camera,
            template: self.template,
            materials: self.materials@,
            objects: self.objects@,
        }
    }
}

/// The block that a line outside the blocks opens.
fn open_block(text: &[u8], line: Span) -> (state: LoadState)
    requires
        line.within(text@),
    ensures
        state == block_opened(text@, line),
{
    if starts_with(text, line, "scene".as_bytes()) {
        LoadState::Scene
    } else if starts_with(text, line, "materials".as_bytes()) {
        LoadState::Materials
    } else if starts_with(text, line, "camera".as_bytes()) {
        LoadState::Camera
    } else {
        LoadState::Main
    }
}

/// Reads a line of the camera block.
fn read_camera(text: &[u8], camera: CameraText, line: Span) -> (after: Result<
    CameraText,
    LoadError,
>)
    requires
        line.within(text@),
        camera.within(text@),
    ensures
        after == camera_after(text@, camera, line),
        after matches Ok(c) ==> c.within(text@),
{
    match split_once(text, line) {
        Some((name, data)) => {
            let value = trim_span(text, data);
            let mut camera = camera;
            if is_word(text, name, "transform".as_bytes()) {
                match parse_transform(text, value) {
                    Some(transform) => {
                        camera.transform = transform;
                    },
                    None => {
                        return Err(LoadError::MissingValue(line));
                    },
                }
            } else if is_word(text, name, "focal_length".as_bytes()) {
                camera.focal_length = Some(value);
            } else if is_word(text, name, "focal_plane".as_bytes()) {
                camera.focal_plane = Some(value);
            } else if is_word(text, name, "f_stop".as_bytes()) {
                camera.f_stop = Some(value);
            }
            Ok(camera)
        },
        None => Ok(camera),
    }
}

/// Reads the value of a shape from a line of the scene block.
fn read_shape(text: &[u8], shape: ShapeText, name: Span, value: Span, line: Span) -> (after:
    Result<ShapeText, LoadError>)
    requires
        name.within(text@),
        value.within(text@),
    ensures
        after == shape_after(text@, shape, name, value, line),
        after matches Ok(ShapeText::Sphere(radius)) ==> span_within(radius, text@) || shape
            == ShapeText::Sphere(radius),
        after matches Ok(ShapeText::Box(bounds)) ==> triple_within(bounds, text@) || shape
            == ShapeText::Box(bounds),
{
    match shape {
        ShapeText::Unset => Ok(shape),
        ShapeText::Sphere(_) => {
            if is_word(text, name, "radius".as_bytes()) {
                Ok(ShapeText::Sphere(Some(value)))
            } else {
                Ok(shape)
            }
        },
        ShapeText::Box(_) => {
            if is_word(text, name, "bounds".as_bytes()) {
                let list = split_tokens(text, value);
                match get_vec(&list, 0) {
                    Some(bounds) => Ok(ShapeText::Box(Some(bounds))),
                    None => Err(LoadError::MissingValue(line)),
                }
            } else {
                Ok(shape)
            }
        },
    }
}

/// Reads a line of the scene block into the object in the making.
fn read_object(
    text: &[u8],
    materials: &Vec<MaterialEntry>,
    object: ObjectText,
    line: Span,
) -> (after: Result<ObjectText, LoadError>)
    requires
        line.within(text@),
        object.within(text@, materials.len() as int),
        forall|i: int|
            0 <= i < materials.len() ==> (#[trigger] materials[i]).name.within(text@),
    ensures
        after == object_after(text@, materials@, object, line),
        after matches Ok(o) ==> o.within(text@, materials.len() as int),
{
    let mut object = object;
    if starts_with(text, line, "sphere".as_bytes()) {
        object.shape = ShapeText::Sphere(None);
    } else if starts_with(text, line, "box".as_bytes()) {
        object.shape = ShapeText::Box(None);
    } else {
        match split_once(text, line) {
            Some((name, data)) => {
                let value = trim_span(text, data);
                if is_word(text, name, "material".as_bytes()) {
                    match find_material(text, materials, value) {
                        Some(place) => {
                            object.material = Some(place);
                        },
                        None => {
                            return Err(LoadError::UnknownMaterial(line));
                        },
                    }
                } else if is_word(text, name, "transform".as_bytes()) {
                    match parse_transform(text, value) {
                        Some(transform) => {
                            object.transform = transform;
                        },
                        None => {
                            return Err(LoadError::MissingValue(line));
                        },
                    }
                } else {
                    match read_shape(text, object.shape, name, value, line) {
                        Ok(shape) => {
                            object.shape = shape;
                        },
                        Err(e) => {
                            return Err(e);
                        },
                    }
                }
            },
            None => {},
        }
    }
    Ok(object)
}

impl Loader {
    /// A reader that has read nothing.
    fn new() -> (loader: Self)
        ensures
            loader@ == LoadProgress::start(),
    {
        Loader {
            state: LoadState::Main,
            camera: CameraText {
                transform: TransformText { position: None, rotation: None, scale: None },
                focal_length: None,
                focal_plane: None,
                f_stop: None,
            },
            template: ObjectText {
                shape: ShapeText::Unset,
                material: None,
                transform: TransformText { position: None, rotation: None, scale: None },
            },
            materials: Vec::new(),
            objects: Vec::new(),
        }
    }

    /// Reads one line, given without the white space at its ends.
    fn read_line(self, text: &[u8], line: Span) -> (after: Result<Loader, LoadError>)
        requires
            line.within(text@),
            self@.within(text@),
        ensures
            match self@.read_line(text@, line) {
                Ok(progress) => after matches Ok(loader) && loader@ == progress && progress.within(
                    text@,
                ),
                Err(e) => after matches Err(found) && found == e,
            },
    {
        let mut loader = self;
        if line.start < line.end && text[line.start] == HASH {
            return Ok(loader);
        }
        if contains_byte(text, CLOSE_BRACE, line) {
            loader.state = open_block(text, line);
            return Ok(loader);
        }
        match loader.state {
            LoadState::Main => {
                loader.state = open_block(text, line);
            },
            LoadState::Camera => {
                match read_camera(text, loader.camera, line) {
                    Ok(camera) => {
                        loader.camera = camera;
                    },
                    Err(e) => {
                        return Err(e);
                    },
                }
            },
            LoadState::Materials => {
                match split_once(text, line) {
                    Some((name, data)) => {
                        match parse_material(text, data) {
                            Some(material) => {
                                loader.materials.push(MaterialEntry { name, material });
                            },
                            None => {
                                return Err(LoadError::MissingValue(line));
                            },
                        }
                    },
                    None => {},
                }
            },
            LoadState::Scene => {
                match read_object(text, &loader.materials, loader.template, line) {
                    Ok(template) => {
                        loader.template = template;
                        if contains_byte(text, CLOSE_PAREN, line) {
                            loader.objects.push(template);
                        }
                    },
                    Err(e) => {
                        return Err(e);
                    },
                }
            },
        }
        Ok(loader)
    }
}

/// Reads a scene description. Where a line is at fault, the first such line
/// is reported and nothing is handed out.
pub fn load(text: &[u8]) -> (scene: Result<SceneDescription, LoadError>)
    ensures
        match LoadProgress::start().read_from(text@, 0) {
            Ok(progress) => scene matches Ok(description) && description.camera == progress.camera
                && description.materials@ == progress.materials && description.objects@
                == progress.objects && progress.within(text@),
            Err(e) => scene matches Err(found) && found == e,
        },
{
    let mut loader = Loader::new();
    let mut from: usize = 0;
    while from < text.len()
        invariant
            from <= text.len(),
            loader@.within(text@),
            loader@.read_from(text@, from as int) == LoadProgress::start().read_from(text@, 0),
        decreases text.len() - from,
    {
        let end = find_byte(text, NEWLINE, from, text.len());
        let line = trim_span(text, Span { start: from, end });
        match loader.read_line(text, line) {
            Ok(next) => {
                loader = next;
            },
            Err(e) => {
                return Err(e);
            },
        }
        if end < text.len() {
            from = end + 1;
        } else {
            from = text.len();
        }
    }
    Ok(
        SceneDescription {
            camera: loader.camera,
            materials: loader.materials,
            objects: loader.objects,
        },
    )
}

} // verus!
