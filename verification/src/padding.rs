//! How large a finite board must be to hold a routing with a border of dead cells.

use crate::library::{published_part1_specs, PublishedSize, PublishedSpec, SpecModel};
use crate::published::{PatternFiles, PublishedPattern};
use crate::routing::{RouteBounds, RoutingWitness};
use crate::text::{push_bool, push_usize};
use crate::library;
use crate::published;
use crate::routing;
use crate::text;
use vstd::prelude::*;

verus! {

/// Bounds on a finite board that holds a routing.
///
/// A cell's next state depends on the cells around it, so that the cells which shape a
/// pattern lie within one cell of it; a border of two dead cells isolates it.
#[derive(Debug, Clone, PartialEq, Eq)]
pub struct DeadBoundaryPaddingCertificate {
    pub predecessor_radius: usize,
    pub dead_padding: usize,
    pub max_pattern_width: usize,
    pub max_pattern_height: usize,
    pub max_horizontal_step: usize,
    pub max_vertical_step: usize,
    pub support_width_upper_bound: usize,
    pub support_height_upper_bound: usize,
    pub finite_board_width_upper_bound: usize,
    pub finite_board_height_upper_bound: usize,
}

impl DeadBoundaryPaddingCertificate {
    /// The sums of the certificate stay within the range of sizes.
    pub open spec fn summable(&self) -> bool {
        &&& self.predecessor_radius + 1 <= usize::MAX
        &&& 2 * self.dead_padding <= usize::MAX
        &&& self.support_width_upper_bound + 2 * self.dead_padding <= usize::MAX
        &&& self.support_height_upper_bound + 2 * self.dead_padding <= usize::MAX
    }

    /// The board is large enough.
    pub open spec fn complete(&self) -> bool {
        &&& self.predecessor_radius == 1
        &&& self.dead_padding >= self.predecessor_radius + 1
        &&& self.support_width_upper_bound > 0
        &&& self.support_height_upper_bound > 0
        &&& self.finite_board_width_upper_bound >= self.support_width_upper_bound + 2 * self.dead_padding
        &&& self.finite_board_height_upper_bound >= self.support_height_upper_bound + 2 * self.dead_padding
    }

    /// Whether the board is large enough.
    pub fn is_complete(&self) -> (complete: bool)
        requires
            self.summable(),
        ensures
            complete == self.complete(),
    {
        self.predecessor_radius == 1 && self.dead_padding >= self.predecessor_radius + 1
            && self.support_width_upper_bound > 0 && self.support_height_upper_bound > 0
            && self.finite_board_width_upper_bound >= self.support_width_upper_bound + 2 * self.dead_padding
            && self.finite_board_height_upper_bound >= self.support_height_upper_bound + 2 * self.dead_padding
    }

    /// The summary.
    pub open spec fn summary(&self) -> Seq<char> {
        "finite_dead_boundary_complete="@ + text::bool_text(self.complete()) + " support_bound="@ + text::decimal(
            self.support_width_upper_bound as nat,
        ) + "x"@ + text::decimal(self.support_height_upper_bound as nat) + " finite_board_bound="@ + text::decimal(
            self.finite_board_width_upper_bound as nat,
        ) + "x"@ + text::decimal(self.finite_board_height_upper_bound as nat) + " dead_padding="@ + text::decimal(
            self.dead_padding as nat,
        ) + " predecessor_radius="@ + text::decimal(self.predecessor_radius as nat)
    }

    /// The bounds, as they are written.
    pub fn render_summary(&self) -> (summary: String)
        requires
            self.summable(),
        ensures
            summary@ == self.summary(),
    {
        let mut out: String = "finite_dead_boundary_complete=".to_owned();
        push_bool(&mut out, self.is_complete());
        out.append(" support_bound=");
        push_usize(&mut out, self.support_width_upper_bound);
        out.append("x");
        push_usize(&mut out, self.support_height_upper_bound);
        out.append(" finite_board_bound=");
        push_usize(&mut out, self.finite_board_width_upper_bound);
        out.append("x");
        push_usize(&mut out, self.finite_board_height_upper_bound);
        out.append(" dead_padding=");
        push_usize(&mut out, self.dead_padding);
        out.append(" predecessor_radius=");
        push_usize(&mut out, self.predecessor_radius);
        out
    }
}

/// Why no bounds can be given, over texts.
pub enum PaddingFailure {
    UnreadablePattern(Seq<char>),
    NoSize,
}

/// Why no bounds can be given.
#[derive(Debug)]
pub enum PaddingError {
    /// The size of a pattern cannot be read from its file.
    UnreadablePattern { name: &'static str },
    /// No pattern has a size.
    NoSize,
}

impl View for PaddingError {
    type V = PaddingFailure;

    open spec fn view(&self) -> PaddingFailure {
        match *self {
            PaddingError::UnreadablePattern { name } => PaddingFailure::UnreadablePattern(name@),
            PaddingError::NoSize => PaddingFailure::NoSize,
        }
    }
}

/// The message of a failure.
pub open spec fn padding_text(failure: PaddingFailure) -> Seq<char> {
    match failure {
        PaddingFailure::UnreadablePattern(name) => "Failed to load published pattern '"@ + name
            + "' while computing padding bounds"@,
        PaddingFailure::NoSize => "Published gadget library unexpectedly has zero size bounds"@,
    }
}

impl PaddingError {
    /// The message of the error.
    pub fn to_string(&self) -> (message: String)
        ensures
            message@ == padding_text(self@),
    {
        match self {
            PaddingError::UnreadablePattern { name } => {
                let mut out: String = "Failed to load published pattern '".to_owned();
                out.append(*name);
                out.append("' while computing padding bounds");
                out
            },
            PaddingError::NoSize => "Published gadget library unexpectedly has zero size bounds".to_owned(),
        }
    }
}

/// The size of a pattern: the one that the library states, or else that of its file.
pub open spec fn size_of(files: &PatternFiles, spec: SpecModel) -> Result<(nat, nat), PaddingFailure> {
    match spec.size {
        Some(size) => Ok(size),
        None => match published::pattern_in_files(files, spec.path) {
            Err(_) => Err(PaddingFailure::UnreadablePattern(spec.name)),
            Ok(rows) => Ok((rows[0].len(), rows.len())),
        },
    }
}

/// The larger of two numbers.
pub open spec fn larger(a: nat, b: nat) -> nat {
    if a < b {
        b
    } else {
        a
    }
}

/// The largest width and the largest height of the first `k` patterns.
pub open spec fn largest(files: &PatternFiles, k: nat) -> Result<(nat, nat), PaddingFailure>
    decreases k,
{
    if k == 0 {
        Ok((0, 0))
    } else {
        match largest(files, (k - 1) as nat) {
            Err(failure) => Err(failure),
            Ok(earlier) => match size_of(files, library::part1_table()[k - 1]) {
                Err(failure) => Err(failure),
                Ok(size) => Ok((larger(earlier.0, size.0), larger(earlier.1, size.1))),
            },
        }
    }
}

/// The largest width and the largest height of all patterns.
pub open spec fn dimension_bounds(files: &PatternFiles) -> Result<(nat, nat), PaddingFailure> {
    match largest(files, library::part1_table().len()) {
        Err(failure) => Err(failure),
        Ok(size) => if size.0 > 0 && size.1 > 0 {
            Ok(size)
        } else {
            Err(PaddingFailure::NoSize)
        },
    }
}

/// A number, or the largest size where it is larger.
pub open spec fn capped(n: nat) -> nat {
    if n <= usize::MAX {
        n
    } else {
        usize::MAX as nat
    }
}

/// The certificate for a routing of the given extent, with patterns of the given size.
pub open spec fn is_padding(
    certificate: DeadBoundaryPaddingCertificate,
    width: nat,
    height: nat,
    size: (nat, nat),
) -> bool {
    let support_width = larger(capped(width * size.0), size.0);
    let support_height = larger(capped(height * size.1), size.1);
    &&& certificate.predecessor_radius == 1
    &&& certificate.dead_padding == 2
    &&& certificate.max_pattern_width == size.0
    &&& certificate.max_pattern_height == size.1
    &&& certificate.max_horizontal_step == size.0
    &&& certificate.max_vertical_step == size.1
    &&& certificate.support_width_upper_bound == support_width
    &&& certificate.support_height_upper_bound == support_height
    &&& certificate.finite_board_width_upper_bound == capped(support_width + 4)
    &&& certificate.finite_board_height_upper_bound == capped(support_height + 4)
}

proof fn lemma_largest_fails(files: &PatternFiles, j: nat, k: nat)
    requires
        j <= k,
        largest(files, j) is Err,
    ensures
        largest(files, k) == largest(files, j),
    decreases k,
{
    if j < k {
        lemma_largest_fails(files, j, (k - 1) as nat);
    }
}

/// The largest width and the largest height of all patterns.
fn published_dimension_bounds(files: &PatternFiles) -> (result: Result<(usize, usize), PaddingError>)
    requires
        files.texts.wf(),
    ensures
        match dimension_bounds(files) {
            Ok(size) => result matches Ok(found) && found.0 == size.0 && found.1 == size.1,
            Err(failure) => result matches Err(error) && error@ == failure,
        },
{
    let specs: Vec<PublishedSpec> = published_part1_specs();
    let mut max_width: usize = 0;
    let mut max_height: usize = 0;
    let mut k: usize = 0;
    while k < specs.len()
        invariant
            k <= specs@.len(),
            files.texts.wf(),
            library::spec_models(specs@) == library::part1_table(),
            largest(files, k as nat) == Ok::<(nat, nat), PaddingFailure>((max_width as nat, max_height as nat)),
        decreases specs.len() - k,
    {
        let spec: &PublishedSpec = &specs[k];
        assert(library::part1_table()[k as int] == spec@);
        let (width, height): (usize, usize) = match spec.size {
            Some(PublishedSize(width, height)) => (width, height),
            None => match PublishedPattern::from_csv_file(files, spec.path) {
                Ok(pattern) => (pattern.width, pattern.height),
                Err(_) => {
                    proof {
                        lemma_largest_fails(files, (k + 1) as nat, library::part1_table().len());
                    }
                    return Err(PaddingError::UnreadablePattern { name: spec.name });
                },
            },
        };
        if max_width < width {
            max_width = width;
        }
        if max_height < height {
            max_height = height;
        }
        k += 1;
    }
    if max_width > 0 && max_height > 0 {
        Ok((max_width, max_height))
    } else {
        Err(PaddingError::NoSize)
    }
}

fn support(extent: usize, step: usize) -> (bound: usize)
    ensures
        bound == larger(capped(extent as nat * step as nat), step as nat),
{
    let product: usize = match extent.checked_mul(step) {
        Some(product) => product,
        None => usize::MAX,
    };
    if product < step {
        step
    } else {
        product
    }
}

fn widened(bound: usize) -> (wide: usize)
    ensures
        wide == capped(bound as nat + 4),
{
    if bound <= usize::MAX - 4 {
        bound + 4
    } else {
        usize::MAX
    }
}

/// Bounds the finite board that holds a routing: each cell of the routing takes at most the
/// space of the largest pattern.
pub fn certify_dead_boundary_padding(files: &PatternFiles, witness: &RoutingWitness) -> (result: Result<
    DeadBoundaryPaddingCertificate,
    PaddingError,
>)
    requires
        files.texts.wf(),
        routing::extent_fits(witness.bounds),
    ensures
        match dimension_bounds(files) {
            Ok(size) => result matches Ok(certificate) && is_padding(
                certificate,
                routing::extent(witness.bounds.min_x as int, witness.bounds.max_x as int),
                routing::extent(witness.bounds.min_y as int, witness.bounds.max_y as int),
                size,
            ),
            Err(failure) => result matches Err(error) && error@ == failure,
        },
{
    let (max_pattern_width, max_pattern_height): (usize, usize) = match published_dimension_bounds(files) {
        Ok(size) => size,
        Err(error) => {
            return Err(error);
        },
    };
    let support_width_upper_bound: usize = support(witness.bounds.width(), max_pattern_width);
    let support_height_upper_bound: usize = support(witness.bounds.height(), max_pattern_height);
    Ok(
        DeadBoundaryPaddingCertificate {
            predecessor_radius: 1,
            dead_padding: 2,
            max_pattern_width,
            max_pattern_height,
            max_horizontal_step: max_pattern_width,
            max_vertical_step: max_pattern_height,
            support_width_upper_bound,
            support_height_upper_bound,
            finite_board_width_upper_bound: widened(support_width_upper_bound),
            finite_board_height_upper_bound: widened(support_height_upper_bound),
        },
    )
}

/// A certificate is complete, except where the size of the board exceeds the range of sizes.
pub proof fn law_padding_complete(
    certificate: DeadBoundaryPaddingCertificate,
    width: nat,
    height: nat,
    size: (nat, nat),
)
    requires
        is_padding(certificate, width, height, size),
        size.0 > 0,
        size.1 > 0,
        certificate.summable(),
    ensures
        certificate.complete(),
        certificate.support_width_upper_bound >= size.0,
        certificate.support_height_upper_bound >= size.1,
{
}

/// No pattern is larger than the largest ones, and each of the two is the size of some pattern.
proof fn lemma_largest_holds(files: &PatternFiles, k: nat)
    requires
        largest(files, k) is Ok,
        k <= library::part1_table().len(),
    ensures
        forall|i: int|
            0 <= i < k ==> (size_of(files, #[trigger] library::part1_table()[i]) matches Ok(size) && size.0 <= largest(
                files,
                k,
            )->Ok_0.0 && size.1 <= largest(files, k)->Ok_0.1),
        largest(files, k)->Ok_0.0 == 0 || exists|i: int|
            0 <= i < k && size_of(files, #[trigger] library::part1_table()[i])->Ok_0.0 == largest(files, k)->Ok_0.0,
        largest(files, k)->Ok_0.1 == 0 || exists|i: int|
            0 <= i < k && size_of(files, #[trigger] library::part1_table()[i])->Ok_0.1 == largest(files, k)->Ok_0.1,
    decreases k,
{
    if k > 0 {
        lemma_largest_holds(files, (k - 1) as nat);
        let earlier = largest(files, (k - 1) as nat)->Ok_0;
        let here = library::part1_table()[k - 1];
        assert(size_of(files, here) is Ok);
        if largest(files, k)->Ok_0.0 != size_of(files, here)->Ok_0.0 && largest(files, k)->Ok_0.0 != 0 {
            let i = choose|i: int|
                0 <= i < k - 1 && size_of(files, #[trigger] library::part1_table()[i])->Ok_0.0 == earlier.0;
            assert(size_of(files, library::part1_table()[i])->Ok_0.0 == largest(files, k)->Ok_0.0);
        }
        if largest(files, k)->Ok_0.1 != size_of(files, here)->Ok_0.1 && largest(files, k)->Ok_0.1 != 0 {
            let i = choose|i: int|
                0 <= i < k - 1 && size_of(files, #[trigger] library::part1_table()[i])->Ok_0.1 == earlier.1;
            assert(size_of(files, library::part1_table()[i])->Ok_0.1 == largest(files, k)->Ok_0.1);
        }
    }
}

/// The certificate is the one for the extent of a routing.
pub open spec fn is_padding_of(
    files: &PatternFiles,
    bounds: RouteBounds,
    certificate: DeadBoundaryPaddingCertificate,
) -> bool {
    dimension_bounds(files) matches Ok(size) && is_padding(
        certificate,
        routing::extent(bounds.min_x as int, bounds.max_x as int),
        routing::extent(bounds.min_y as int, bounds.max_y as int),
        size,
    )
}

/// The support holds the routing: one piece of any pattern of the library, for each column and
/// for each row from the first to the last, fits side by side, unless that is more than sizes can
/// tell. Around the support there is room for two cells on each side.
pub proof fn law_support_holds_routing(
    files: &PatternFiles,
    bounds: RouteBounds,
    certificate: DeadBoundaryPaddingCertificate,
    i: int,
)
    requires
        is_padding_of(files, bounds, certificate),
        0 <= i < library::part1_table().len(),
    ensures
        size_of(files, library::part1_table()[i]) is Ok,
        ({
            let size = size_of(files, library::part1_table()[i])->Ok_0;
            let columns = bounds.max_x - bounds.min_x + 1;
            let rows = bounds.max_y - bounds.min_y + 1;
            &&& certificate.support_width_upper_bound >= size.0
            &&& certificate.support_height_upper_bound >= size.1
            &&& columns * size.0 <= usize::MAX ==> certificate.support_width_upper_bound >= columns * size.0
            &&& columns * size.0 > usize::MAX ==> certificate.support_width_upper_bound == usize::MAX
            &&& rows * size.1 <= usize::MAX ==> certificate.support_height_upper_bound >= rows * size.1
            &&& rows * size.1 > usize::MAX ==> certificate.support_height_upper_bound == usize::MAX
        }),
        certificate.finite_board_width_upper_bound == certificate.support_width_upper_bound + 2 + 2
            || certificate.finite_board_width_upper_bound == usize::MAX,
        certificate.finite_board_height_upper_bound == certificate.support_height_upper_bound + 2 + 2
            || certificate.finite_board_height_upper_bound == usize::MAX,
        certificate.support_width_upper_bound + 4 <= usize::MAX ==> certificate.finite_board_width_upper_bound
            == certificate.support_width_upper_bound + 4,
        certificate.support_height_upper_bound + 4 <= usize::MAX ==> certificate.finite_board_height_upper_bound
            == certificate.support_height_upper_bound + 4,
{
    lemma_largest_holds(files, library::part1_table().len());
    let most = dimension_bounds(files)->Ok_0;
    let size = size_of(files, library::part1_table()[i])->Ok_0;
    let columns = bounds.max_x - bounds.min_x + 1;
    let rows = bounds.max_y - bounds.min_y + 1;
    assert(size.0 <= most.0 && size.1 <= most.1);
    lemma_products(columns, size.0, most.0);
    lemma_products(rows, size.1, most.1);
}

proof fn lemma_products(count: int, size: nat, most: nat)
    requires
        size <= most,
    ensures
        count >= 0 ==> 0 <= count * size <= count * most,
        count <= 0 ==> count * size <= 0,
{
    assert(count >= 0 ==> 0 <= count * size <= count * most) by (nonlinear_arith)
        requires
            size <= most,
    ;
    assert(count <= 0 ==> count * size <= 0) by (nonlinear_arith);
}

/// The support is no larger than it has to be: along each axis it is what as many pieces of one
/// pattern of the library take as there are columns, or rows, from the first to the last.
pub proof fn law_support_is_tight(
    files: &PatternFiles,
    bounds: RouteBounds,
    certificate: DeadBoundaryPaddingCertificate,
)
    requires
        is_padding_of(files, bounds, certificate),
        bounds.min_x <= bounds.max_x,
        bounds.min_y <= bounds.max_y,
    ensures
        certificate.support_width_upper_bound == usize::MAX || exists|i: int|
            0 <= i < library::part1_table().len() && certificate.support_width_upper_bound == (bounds.max_x - bounds.min_x
                + 1) * size_of(files, #[trigger] library::part1_table()[i])->Ok_0.0,
        certificate.support_height_upper_bound == usize::MAX || exists|i: int|
            0 <= i < library::part1_table().len() && certificate.support_height_upper_bound == (bounds.max_y
                - bounds.min_y + 1) * size_of(files, #[trigger] library::part1_table()[i])->Ok_0.1,
        certificate.predecessor_radius == 1,
        certificate.dead_padding == certificate.predecessor_radius + 1,
{
    let n = library::part1_table().len();
    lemma_largest_holds(files, n);
    let most = dimension_bounds(files)->Ok_0;
    let i = choose|i: int| 0 <= i < n && size_of(files, #[trigger] library::part1_table()[i])->Ok_0.0 == most.0;
    let j = choose|j: int| 0 <= j < n && size_of(files, #[trigger] library::part1_table()[j])->Ok_0.1 == most.1;
    let columns = bounds.max_x - bounds.min_x + 1;
    let rows = bounds.max_y - bounds.min_y + 1;
    assert(columns * most.0 >= most.0 && rows * most.1 >= most.1) by (nonlinear_arith)
        requires
            columns >= 1,
            rows >= 1,
            most.0 >= 0,
            most.1 >= 0,
    ;
    assert(size_of(files, library::part1_table()[i])->Ok_0.0 == most.0);
    assert(size_of(files, library::part1_table()[j])->Ok_0.1 == most.1);
}

/// A routing that reaches farther needs no smaller board, and one with more columns, or more
/// rows, needs a larger one.
pub proof fn law_support_grows(
    files: &PatternFiles,
    small: RouteBounds,
    large: RouteBounds,
    one: DeadBoundaryPaddingCertificate,
    other: DeadBoundaryPaddingCertificate,
)
    requires
        is_padding_of(files, small, one),
        is_padding_of(files, large, other),
        small.min_x <= small.max_x,
        small.min_y <= small.max_y,
        large.min_x <= small.min_x,
        small.max_x <= large.max_x,
        large.min_y <= small.min_y,
        small.max_y <= large.max_y,
    ensures
        one.support_width_upper_bound <= other.support_width_upper_bound,
        one.support_height_upper_bound <= other.support_height_upper_bound,
        one.finite_board_width_upper_bound <= other.finite_board_width_upper_bound,
        one.finite_board_height_upper_bound <= other.finite_board_height_upper_bound,
        large.max_x - large.min_x > small.max_x - small.min_x && one.support_width_upper_bound < usize::MAX
            ==> one.support_width_upper_bound < other.support_width_upper_bound,
        large.max_y - large.min_y > small.max_y - small.min_y && one.support_height_upper_bound < usize::MAX
            ==> one.support_height_upper_bound < other.support_height_upper_bound,
{
    let most = dimension_bounds(files)->Ok_0;
    lemma_step(small.max_x - small.min_x + 1, large.max_x - large.min_x + 1, most.0);
    lemma_step(small.max_y - small.min_y + 1, large.max_y - large.min_y + 1, most.1);
}

proof fn lemma_step(few: int, many: int, size: nat)
    requires
        1 <= few <= many,
        size > 0,
    ensures
        size <= few * size <= many * size,
        few < many ==> few * size < many * size,
{
    assert(size <= few * size <= many * size) by (nonlinear_arith)
        requires
            1 <= few <= many,
            size > 0,
    ;
    assert(few < many ==> few * size < many * size) by (nonlinear_arith)
        requires
            size > 0,
    ;
}

} // verus!
