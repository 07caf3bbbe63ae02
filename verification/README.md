# tilt_center_of_rotation

Estimation of the rotation-axis tilt and the center of rotation of a CT
projection stack, as a verified library with a window around it.

With the rotation axis at column `c(y)`, a parallel-beam projection and its
180° opposite mirror into each other. Flipping the opposite projection turns
the mirror into a shift per row, so the axis is found by aligning row bands to
a fraction of a pixel and fitting a line through the columns that come out:
slope → tilt, value at mid-height → center of rotation.

## Layout

- `src/` is the library, proved with Verus.
  - `ieee`, `unit`: doubles and singles as bit patterns; the exact operations
    on them, and the trait of those that round.
  - `order`, `text`: stable sorting, decimal numbers, lines.
  - `pairs`, `profile`, `fit`, `algorithms`, `job`: from the angle list to the
    estimate.
  - `resample`, `correction`: sampling an image through a rotation; what
    applying an estimate does to the stack and to the checkpoint.
  - `stack`, `npy`, `json`, `recon`: checkpoints, array files, correction
    records, and the hand-over to a test reconstruction.
  - `profile_laws`, `recovery_laws`, `fit_laws`, `consensus_laws`,
    `rotation_laws`, `sampling_laws`, `repeat_laws`: what holds of these as a
    whole, given what the unit does: that a mirrored profile gives its axis
    back, that the line is the one of least squares, that a rotation makes up
    no value.
  - `app`, `view`, `labels`, `logger`: the state behind the window, its images
    and its texts.
- `app/` is the program: window, HDF5, processes, threads and the clock.
- `tests/` runs the library on real numbers.

Floating point is held as IEEE 754 bits. What compares, orders, clamps or
truncates is proved exactly; what rounds goes through the trait
`unit::FloatUnit`, and the contracts say which of its operations a result came
out of, on which values and in which order.
