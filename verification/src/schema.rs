use vstd::prelude::*;

verus! {

broadcast use vstd::string::group_string_axioms;

/// Name of the column with the point's x offset inside its tile.
pub open spec fn local_x_name() -> Seq<char> {
    seq!['x', '_', 'u', '1', '6']
}

/// Name of the column with the point's y offset inside its tile.
pub open spec fn local_y_name() -> Seq<char> {
    seq!['y', '_', 'u', '1', '6']
}

/// Name of the column with the point's zoom level.
pub open spec fn zoom_name() -> Seq<char> {
    seq!['z']
}

/// Name of the column with the point's tile id.
pub open spec fn tile_id_name() -> Seq<char> {
    seq!['f', 'i', 'n', 'a', 'l', '_', 't', 'i', 'l', 'e', '_', 'i', 'd']
}

/// A field of the bucketer's output: a field of the input, by position, or
/// one of the four fields the bucketer computes.
#[derive(Clone, Copy, Debug, PartialEq, Eq, Structural)]
pub enum OutputField {
    Input(usize),
    LocalX,
    LocalY,
    Zoom,
    TileId,
}

/// Where the bucketer takes an output column from, by the column's name.
#[derive(Clone, Copy, Debug, PartialEq, Eq, Structural)]
pub enum ColumnSource {
    Input,
    LocalX,
    LocalY,
    Zoom,
    TileId,
}

/// The name of a computed output field.
pub open spec fn computed_field_name(field: OutputField) -> Seq<char> {
    match field {
        OutputField::LocalX => local_x_name(),
        OutputField::LocalY => local_y_name(),
        OutputField::Zoom => zoom_name(),
        OutputField::TileId => tile_id_name(),
        OutputField::Input(_) => Seq::empty(),
    }
}

/// The column source for an output column called `name`.
pub open spec fn spec_column_source(name: Seq<char>) -> ColumnSource {
    if name == zoom_name() {
        ColumnSource::Zoom
    } else if name == tile_id_name() {
        ColumnSource::TileId
    } else if name == local_x_name() {
        ColumnSource::LocalX
    } else if name == local_y_name() {
        ColumnSource::LocalY
    } else {
        ColumnSource::Input
    }
}

/// Positions of the names not in `dropped`, in order.
pub open spec fn kept_indices(names: Seq<Seq<char>>, dropped: Set<Seq<char>>) -> Seq<usize>
    decreases names.len(),
{
    if names.len() == 0 {
        Seq::empty()
    } else {
        kept_indices(names.drop_last(), dropped) + if dropped.contains(names.last()) {
            Seq::<usize>::empty()
        } else {
            seq![(names.len() - 1) as usize]
        }
    }
}

/// Positions of the names in `wanted`, in order.
pub open spec fn chosen_indices(names: Seq<Seq<char>>, wanted: Set<Seq<char>>) -> Seq<usize>
    decreases names.len(),
{
    if names.len() == 0 {
        Seq::empty()
    } else {
        chosen_indices(names.drop_last(), wanted) + if wanted.contains(names.last()) {
            seq![(names.len() - 1) as usize]
        } else {
            Seq::<usize>::empty()
        }
    }
}

/// Name of the absolute-magnitude column of a star catalog.
pub open spec fn magnitude_name() -> Seq<char> {
    seq!['a', 'b', 's', '_', 'm']
}

/// Name of the colour-index column of a star catalog.
pub open spec fn colour_name() -> Seq<char> {
    seq!['b', 'p', '_', 'r', 'p']
}

/// The names of a list of fields.
pub open spec fn names_of(names: Seq<String>) -> Seq<Seq<char>> {
    names.map_values(|s: String| s@)
}

/// The name of a field the bucketer computes.
pub fn computed_field_name_of(field: OutputField) -> (name: String)
    requires
        !(field is Input),
    ensures
        name@ == computed_field_name(field),
{
    match field {
        OutputField::LocalX => {
            proof { reveal_strlit("x_u16"); }
            "x_u16".to_string()
        },
        OutputField::LocalY => {
            proof { reveal_strlit("y_u16"); }
            "y_u16".to_string()
        },
        OutputField::Zoom => {
            proof { reveal_strlit("z"); }
            "z".to_string()
        },
        _ => {
            proof { reveal_strlit("final_tile_id"); }
            "final_tile_id".to_string()
        },
    }
}

/// Where the bucketer takes the output column called `name` from: the
/// computed columns by their names, any other name from the input batch.
pub fn column_source(name: &String) -> (source: ColumnSource)
    ensures
        source == spec_column_source(name@),
{
    let zoom = computed_field_name_of(OutputField::Zoom);
    let tile_id = computed_field_name_of(OutputField::TileId);
    let local_x = computed_field_name_of(OutputField::LocalX);
    let local_y = computed_field_name_of(OutputField::LocalY);
    if *name == zoom {
        ColumnSource::Zoom
    } else if *name == tile_id {
        ColumnSource::TileId
    } else if *name == local_x {
        ColumnSource::LocalX
    } else if *name == local_y {
        ColumnSource::LocalY
    } else {
        ColumnSource::Input
    }
}

/// Positions of the fields whose names are neither `first` nor `second`.
fn indices_without(names: &Vec<String>, first: &String, second: &String) -> (kept: Vec<usize>)
    ensures
        kept@ == kept_indices(names_of(names@), set![first@, second@]),
{
    let ghost all = names_of(names@);
    let mut kept: Vec<usize> = Vec::new();
    let mut i: usize = 0;
    while i < names.len()
        invariant
            0 <= i <= names.len(),
            all == names_of(names@),
            kept@ == kept_indices(all.take(i as int), set![first@, second@]),
        decreases names.len() - i,
    {
        proof {
            assert(all.take(i + 1).drop_last() =~= all.take(i as int));
            assert(all.take(i + 1).last() == names@[i as int]@);
        }
        let is_first = names[i] == *first;
        let is_second = names[i] == *second;
        if !is_first && !is_second {
            kept.push(i);
        }
        proof {
            assert(kept@ =~= kept_indices(all.take(i + 1), set![first@, second@]));
        }
        i = i + 1;
    }
    assert(all.take(names.len() as int) =~= all);
    kept
}

/// The fields of the bucketer's output: the input fields except the two
/// coordinate columns, then the x and y offsets, the zoom and the tile id.
pub fn bucketer_fields(names: &Vec<String>, x_col: &String, y_col: &String) -> (fields: Vec<OutputField>)
    ensures
        fields@ == kept_indices(names_of(names@), set![x_col@, y_col@]).map_values(|i: usize| OutputField::Input(i))
            + seq![OutputField::LocalX, OutputField::LocalY, OutputField::Zoom, OutputField::TileId],
{
    let kept = indices_without(names, x_col, y_col);
    input_fields_then_computed(&kept)
}

/// Positions of the fields named `first` or `second`.
fn indices_of(names: &Vec<String>, first: &String, second: &String) -> (chosen: Vec<usize>)
    ensures
        chosen@ == chosen_indices(names_of(names@), set![first@, second@]),
{
    let ghost all = names_of(names@);
    let mut chosen: Vec<usize> = Vec::new();
    let mut i: usize = 0;
    while i < names.len()
        invariant
            0 <= i <= names.len(),
            all == names_of(names@),
            chosen@ == chosen_indices(all.take(i as int), set![first@, second@]),
        decreases names.len() - i,
    {
        proof {
            assert(all.take(i + 1).drop_last() =~= all.take(i as int));
            assert(all.take(i + 1).last() == names@[i as int]@);
        }
        let is_first = names[i] == *first;
        let is_second = names[i] == *second;
        if is_first || is_second {
            chosen.push(i);
        }
        proof {
            assert(chosen@ =~= chosen_indices(all.take(i + 1), set![first@, second@]));
        }
        i = i + 1;
    }
    assert(all.take(names.len() as int) =~= all);
    chosen
}

/// The fields of the standalone catalog bucketer's output: the magnitude
/// and colour columns of the input, then the x and y offsets, the zoom and
/// the tile id.
pub fn catalog_bucketer_fields(names: &Vec<String>) -> (fields: Vec<OutputField>)
    ensures
        fields@ == chosen_indices(names_of(names@), set![magnitude_name(), colour_name()]).map_values(
            |i: usize| OutputField::Input(i),
        ) + seq![OutputField::LocalX, OutputField::LocalY, OutputField::Zoom, OutputField::TileId],
{
    proof {
        reveal_strlit("abs_m");
        reveal_strlit("bp_rp");
    }
    let magnitude = "abs_m".to_string();
    let colour = "bp_rp".to_string();
    assert(magnitude@ =~= magnitude_name());
    assert(colour@ =~= colour_name());
    let chosen = indices_of(names, &magnitude, &colour);
    input_fields_then_computed(&chosen)
}

/// The given input fields, then the four computed fields.
fn input_fields_then_computed(inputs: &Vec<usize>) -> (fields: Vec<OutputField>)
    ensures
        fields@ == inputs@.map_values(|i: usize| OutputField::Input(i))
            + seq![OutputField::LocalX, OutputField::LocalY, OutputField::Zoom, OutputField::TileId],
{
    let mut fields: Vec<OutputField> = Vec::new();
    let mut k: usize = 0;
    while k < inputs.len()
        invariant
            0 <= k <= inputs.len(),
            fields@ == inputs@.take(k as int).map_values(|i: usize| OutputField::Input(i)),
        decreases inputs.len() - k,
    {
        fields.push(OutputField::Input(inputs[k]));
        proof {
            assert(inputs@.take(k + 1) =~= inputs@.take(k as int).push(inputs@[k as int]));
            assert(fields@ =~= inputs@.take(k + 1).map_values(|i: usize| OutputField::Input(i)));
        }
        k = k + 1;
    }
    assert(inputs@.take(inputs.len() as int) =~= inputs@);
    let ghost firsts = fields@;
    fields.push(OutputField::LocalX);
    fields.push(OutputField::LocalY);
    fields.push(OutputField::Zoom);
    fields.push(OutputField::TileId);
    assert(fields@ =~= firsts + seq![OutputField::LocalX, OutputField::LocalY, OutputField::Zoom, OutputField::TileId]);
    fields
}

/// Positions of the fields the packer writes into tiles: all but the tile
/// id, which the archive keeps in its directory instead.
pub fn export_fields(names: &Vec<String>) -> (kept: Vec<usize>)
    ensures
        kept@ == kept_indices(names_of(names@), set![tile_id_name()]),
{
    let tile_id = computed_field_name_of(OutputField::TileId);
    let kept = indices_without(names, &tile_id, &tile_id);
    assert(set![tile_id@, tile_id@] =~= set![tile_id_name()]);
    kept
}

} // verus!
