# prio

Prio3 in Verus: a client shares a measurement among several aggregators, together with a proof
that it is valid; the aggregators check the proof jointly, add up their shares over many clients,
and the sums combine to the aggregate. Measurements can be counts, vectors of counts, sums and
histograms.

The functions of the library are verified, all but three small ones that call into other crates
(see below). What the steps of the protocol compute is defined in `src/vdaf/prio3/model.rs`, over
mathematical integers and byte sequences, and the contracts in `src/vdaf/prio3.rs` refer to these
definitions. `src/vdaf/prio3/laws.rs` proves what follows for the protocol as a whole: honest
measurements are accepted and aggregated correctly, tampering with the joint randomness is
noticed, whatever is accepted was proved, and messages are read back as they were written.
`src/pcp/laws.rs` proves the proof system complete and sound.

What is not proved here but taken from other crates stands in `src/vdaf/prg.rs`: AES-128 in CMAC
and counter mode, whose outputs are named but not described, and the system's random bytes.
