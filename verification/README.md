# rabe_abe

Building blocks of attribute-based encryption over BLS12-381, written in
Verus with their contracts proved:

- `field`: the scalar field, integers modulo the group order.
- `lsss`: access policies, their canonical form, and the linear secret
  sharing matrices built from them, with the recovery of reconstruction
  coefficients.
- `policy_key`: the key that orders the children of a gate in the
  canonical form.
- `cbor`: the ABE-CBOR layout of suites, policies (as RPN tokens),
  attribute sets, group elements and whole key and ciphertext items;
  `cbor::wire` reads and writes them as bytes through `ciborium`.
- `scheme_types`: scheme markers and scheme-tagged wrappers.
- `policy_gen`: policies generated from arbitrary bytes.
- `schemes`: the decision logic of the schemes: time and policy
  conditions for proxy re-encryption, trusted timestamps, expiring
  attributes, the period tree of forward-secure encryption, direct
  revocation, multi-authority policy analysis, and hidden policies.

