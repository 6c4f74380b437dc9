# deip

Verified core of the DEIP pallets, written in Verus.

- `src/primitives.rs`: 160-bit identifiers (with their big-endian bytes),
  32-byte digest comparison, origins and dispatch results.
- `src/hashing.rs`: the SCALE encodings and the xxHash-based digest that
  proposal ids are built from (calls into `parity-scale-codec` and
  `sp-crypto-hashing`).
- `src/sale_index.rs`: the index of token sales by `(project, status)`, kept
  sorted and searched by lower bound.
- `src/project_token_sale.rs`: the stored token sales, status changes, and the
  end-of-block processing that brings every sale in line with the time,
  with the laws it keeps (collections in sync, statuses only advance, every
  sale settled afterwards, processing twice is processing once).
- `src/deip_proposal.rs`: proposals, member decisions, proposal ids, and the
  proposal storage with per-account pending lists.
- `src/deip_org_core.rs`: projects owned by an account or an organisation,
  and their conversion into core projects.
- `tests/`: scenarios run against the compiled library.
- `app/`: conversion to and from the runtime's `sp_core` hash types, and the
  end-of-block hook.
